use vstd::prelude::*;
use crate::colors::{background_chars, text_chars, is_pow2};
use crate::tile::{Tile, TileView, SnapView, cleared, no_chain, value_ok};

verus! {

/// The first tile value whose creation by a merge wins the game.
pub const WINNING_TILE: u32 = 2048;

/// One of the four directions a move can slide the tiles in.
#[derive(Clone, Copy, PartialEq, Eq)]
pub enum Direction {
    Up,
    Down,
    Left,
    Right,
}

// A move is resolved one line at a time: the rows for Left/Right, the columns
// for Up/Down. Within a line, position 0 is the cell at the edge being moved
// toward and position 3 the cell farthest from it. `cell_row`/`cell_col` map
// line `k`, position `j` to board coordinates; `line_of`/`pos_of` invert the
// mapping from a flat row-major board index.
pub open spec fn cell_row(d: Direction, k: int, j: int) -> int {
    match d {
        Direction::Left => k,
        Direction::Right => k,
        Direction::Up => j,
        Direction::Down => 3 - j,
    }
}

pub open spec fn cell_col(d: Direction, k: int, j: int) -> int {
    match d {
        Direction::Left => j,
        Direction::Right => 3 - j,
        Direction::Up => k,
        Direction::Down => k,
    }
}

pub open spec fn cell_at(d: Direction, k: int, j: int) -> int {
    4 * cell_row(d, k, j) + cell_col(d, k, j)
}

pub open spec fn line_of(d: Direction, i: int) -> int {
    match d {
        Direction::Left => i / 4,
        Direction::Right => i / 4,
        Direction::Up => i % 4,
        Direction::Down => i % 4,
    }
}

pub open spec fn pos_of(d: Direction, i: int) -> int {
    match d {
        Direction::Left => i % 4,
        Direction::Right => 3 - i % 4,
        Direction::Up => i / 4,
        Direction::Down => 3 - i / 4,
    }
}

pub proof fn lemma_cell_at(d: Direction, k: int, j: int)
    requires
        0 <= k < 4,
        0 <= j < 4,
    ensures
        0 <= cell_row(d, k, j) < 4,
        0 <= cell_col(d, k, j) < 4,
        0 <= cell_at(d, k, j) < 16,
        line_of(d, cell_at(d, k, j)) == k,
        pos_of(d, cell_at(d, k, j)) == j,
{
}

pub proof fn lemma_cell_inverse(d: Direction, i: int)
    requires
        0 <= i < 16,
    ensures
        0 <= line_of(d, i) < 4,
        0 <= pos_of(d, i) < 4,
        cell_at(d, line_of(d, i), pos_of(d, i)) == i,
{
}

/// The views of a sequence of tiles.
pub open spec fn tile_views(s: Seq<Tile>) -> Seq<TileView> {
    s.map_values(|t: Tile| t@)
}

/// The view of a board: each slot's tile abstracted to its view.
pub open spec fn bview(b: Seq<Option<Tile>>) -> Seq<Option<TileView>> {
    b.map_values(
        |c: Option<Tile>|
            match c {
                Some(t) => Some(t@),
                None => None,
            },
    )
}

/// The tiles of line `k`, read from the cells nearest the target edge
/// outward, skipping empty cells, each with its consumed-tile snapshot
/// discarded (a new move resolution clears them all).
pub open spec fn extract_upto(b: Seq<Option<TileView>>, d: Direction, k: int, j: int) -> Seq<
    TileView,
>
    decreases j,
{
    if j <= 0 {
        Seq::empty()
    } else {
        let prefix = extract_upto(b, d, k, j - 1);
        match b[cell_at(d, k, j - 1)] {
            Some(t) => prefix.push(cleared(t)),
            None => prefix,
        }
    }
}

pub open spec fn extract_line_spec(b: Seq<Option<TileView>>, d: Direction, k: int) -> Seq<
    TileView,
> {
    extract_upto(b, d, k, 4)
}

/// The running state of one line's slide-and-merge resolution: the tiles
/// already placed (nearest the edge first), the ids freed by merges, the
/// score gained, whether a merge reached the winning value, and whether any
/// merge happened at all.
#[verifier::ext_equal]
pub ghost struct LineAcc {
    pub out: Seq<TileView>,
    pub removed: Seq<usize>,
    pub gain: int,
    pub won: bool,
    pub merged_any: bool,
}

pub open spec fn acc_empty() -> LineAcc {
    LineAcc { out: Seq::empty(), removed: Seq::empty(), gain: 0, won: false, merged_any: false }
}

/// Resolves the next tile of a line against the tiles already placed. If the
/// last placed tile has the same value and has not itself merged during this
/// move, the new tile absorbs it: the new tile keeps its own id, doubles its
/// value, takes the fresh colors of the doubled value, records a snapshot of
/// the absorbed tile, and the absorbed tile's id is freed. Otherwise the tile
/// is placed behind the last one.
pub open spec fn merge_step(acc: LineAcc, t: TileView) -> LineAcc {
    if acc.out.len() > 0 && acc.out.last().value == t.value && acc.out.last().merged is None {
        let a = acc.out.last();
        let nv = (2 * t.value) as u32;
        let survivor = TileView {
            value: nv,
            id: t.id,
            row: t.row,
            col: t.col,
            background: background_chars(nv),
            text: text_chars(nv),
            merged: Some(
                SnapView {
                    value: a.value,
                    id: a.id,
                    row: a.row,
                    col: a.col,
                    background: a.background,
                    text: a.text,
                },
            ),
        };
        LineAcc {
            out: acc.out.drop_last().push(survivor),
            removed: acc.removed.push(a.id),
            gain: acc.gain + nv,
            won: acc.won || nv == WINNING_TILE,
            merged_any: true,
        }
    } else {
        LineAcc { out: acc.out.push(t), ..acc }
    }
}

/// Resolves a whole line, processing the extracted tiles nearest the target
/// edge first. Because a merged survivor carries a `merged` snapshot, a third
/// equal tile never merges into it again in the same move.
pub open spec fn merge_fold(s: Seq<TileView>) -> LineAcc
    decreases s.len(),
{
    if s.len() == 0 {
        acc_empty()
    } else {
        merge_step(merge_fold(s.drop_last()), s.last())
    }
}

#[verifier::opaque]
pub open spec fn line_acc(b: Seq<Option<TileView>>, d: Direction, k: int) -> LineAcc {
    merge_fold(extract_line_spec(b, d, k))
}

/// Whether resolving line `k` moves anything: some merge happened, or some
/// surviving tile's destination differs from where it stood.
pub open spec fn line_changed(b: Seq<Option<TileView>>, d: Direction, k: int) -> bool {
    let acc = line_acc(b, d, k);
    acc.merged_any || exists|j: int|
        0 <= j < acc.out.len() && (acc.out[j].row != cell_row(d, k, j) || acc.out[j].col
            != cell_col(d, k, j))
}

/// Whether a move in direction `d` moves any tile at all.
pub open spec fn spec_moved(b: Seq<Option<TileView>>, d: Direction) -> bool {
    exists|k: int| 0 <= k < 4 && line_changed(b, d, k)
}

/// A resolved tile as it lands at line `k`, position `j`: its coordinates are
/// set to the destination cell, and so are the coordinates of its
/// consumed-tile snapshot (the absorbed tile slides to the same cell).
pub open spec fn adjust(t: TileView, d: Direction, k: int, j: int) -> TileView {
    TileView {
        row: cell_row(d, k, j) as usize,
        col: cell_col(d, k, j) as usize,
        merged: match t.merged {
            Some(s) => Some(
                SnapView { row: cell_row(d, k, j) as usize, col: cell_col(d, k, j) as usize, ..s },
            ),
            None => None,
        },
        ..t
    }
}

/// The content of board slot `i` after the slide-and-merge phase of a move in
/// direction `d` (before the new tile spawns): the resolved tiles of its line
/// pack toward the target edge, the remaining cells are empty.
pub open spec fn moved_cell(b: Seq<Option<TileView>>, d: Direction, i: int) -> Option<TileView> {
    let k = line_of(d, i);
    let j = pos_of(d, i);
    let acc = line_acc(b, d, k);
    if j < acc.out.len() {
        Some(adjust(acc.out[j], d, k, j))
    } else {
        None
    }
}

/// The whole board after the slide-and-merge phase of a move in direction `d`.
pub open spec fn move_board(b: Seq<Option<TileView>>, d: Direction) -> Seq<Option<TileView>> {
    Seq::new(16, |i: int| moved_cell(b, d, i))
}

/// The score gained by a move: the sum of the doubled values of this move's
/// merges.
pub open spec fn spec_gain(b: Seq<Option<TileView>>, d: Direction) -> int {
    line_acc(b, d, 0).gain + line_acc(b, d, 1).gain + line_acc(b, d, 2).gain + line_acc(
        b,
        d,
        3,
    ).gain
}

/// The ids freed by this move's merges, in resolution order.
pub open spec fn spec_removed(b: Seq<Option<TileView>>, d: Direction) -> Seq<usize> {
    line_acc(b, d, 0).removed + line_acc(b, d, 1).removed + line_acc(b, d, 2).removed + line_acc(
        b,
        d,
        3,
    ).removed
}

/// Whether some merge of this move produced a tile of the winning value.
pub open spec fn spec_won(b: Seq<Option<TileView>>, d: Direction) -> bool {
    line_acc(b, d, 0).won || line_acc(b, d, 1).won || line_acc(b, d, 2).won || line_acc(
        b,
        d,
        3,
    ).won
}

// Small distribution facts about `tile_views` and `bview` over sequence
// operations; all follow from extensionality.
pub proof fn lemma_views_push(s: Seq<Tile>, t: Tile)
    ensures
        tile_views(s.push(t)) =~= tile_views(s).push(t@),
{
}

pub proof fn lemma_views_drop_last(s: Seq<Tile>)
    requires
        s.len() > 0,
    ensures
        tile_views(s.drop_last()) =~= tile_views(s).drop_last(),
{
}

pub proof fn lemma_bview_update(b: Seq<Option<Tile>>, i: int, c: Option<Tile>)
    requires
        0 <= i < b.len(),
    ensures
        bview(b.update(i, c)) =~= bview(b).update(
            i,
            match c {
                Some(t) => Some(t@),
                None => None,
            },
        ),
{
}

/// The board coordinates of line `k`, position `j`, as executable values.
pub(crate) fn cell_coords(d: Direction, k: usize, j: usize) -> (r: (usize, usize))
    requires
        k < 4,
        j < 4,
    ensures
        r.0 == cell_row(d, k as int, j as int),
        r.1 == cell_col(d, k as int, j as int),
        r.0 < 4,
        r.1 < 4,
{
    match d {
        Direction::Left => (k, j),
        Direction::Right => (k, 3 - j),
        Direction::Up => (j, k),
        Direction::Down => (3 - j, k),
    }
}

/// Collects the tiles of line `k` in slide order, each copied by value with
/// its consumed-tile snapshot discarded.
pub(crate) fn extract_line(board: &Vec<Option<Tile>>, d: Direction, k: usize) -> (r: Vec<Tile>)
    requires
        board@.len() == 16,
        k < 4,
    ensures
        tile_views(r@) == extract_line_spec(bview(board@), d, k as int),
        forall|i: int| 0 <= i < r@.len() ==> (#[trigger] r@[i]).merged is None,
        r@.len() <= 4,
{
    let ghost bv = bview(board@);
    let mut out: Vec<Tile> = Vec::new();
    let mut j: usize = 0;
    while j < 4
        invariant
            board@.len() == 16,
            bv == bview(board@),
            k < 4,
            j <= 4,
            tile_views(out@) =~= extract_upto(bv, d, k as int, j as int),
            out@.len() <= j,
            forall|i: int| 0 <= i < out@.len() ==> (#[trigger] out@[i]).merged is None,
        decreases 4 - j,
    {
        proof {
            lemma_cell_at(d, k as int, j as int);
        }
        let (rr, cc) = cell_coords(d, k, j);
        let idx = 4 * rr + cc;
        match &board[idx] {
            Some(t) => {
                let copy = Tile {
                    value: t.value,
                    id: t.id,
                    background_color: t.background_color.clone(),
                    text_color: t.text_color.clone(),
                    row: t.row,
                    col: t.col,
                    merged: None,
                };
                proof {
                    assert(bv[idx as int] == Some(t@));
                    assert(copy@ == cleared(t@));
                    lemma_views_push(out@, copy);
                }
                out.push(copy);
            },
            None => {
                proof {
                    assert(bv[idx as int] is None);
                }
            },
        }
        j = j + 1;
    }
    out
}

/// The result of resolving one line: the surviving tiles in slide order, the
/// ids freed by merges, the score gained, whether a merge reached the winning
/// value, and whether any merge happened.
pub(crate) struct LineOutcome {
    pub tiles: Vec<Tile>,
    pub removed: Vec<usize>,
    pub gain: u32,
    pub won: bool,
    pub merged_any: bool,
}

/// Resolves one extracted line: slides the tiles toward the edge and merges
/// equal neighbours, never twice into the same tile.
pub(crate) fn merge_line(input: Vec<Tile>) -> (r: LineOutcome)
    requires
        input@.len() <= 4,
        forall|i: int| 0 <= i < input@.len() ==> 2 <= (#[trigger] input@[i]).value <= 0x0800_0000,
        forall|i: int| 0 <= i < input@.len() ==> (#[trigger] input@[i]).merged is None,
    ensures
        tile_views(r.tiles@) == merge_fold(tile_views(input@)).out,
        r.removed@ == merge_fold(tile_views(input@)).removed,
        r.gain == merge_fold(tile_views(input@)).gain,
        r.won == merge_fold(tile_views(input@)).won,
        r.merged_any == merge_fold(tile_views(input@)).merged_any,
        forall|i: int| 0 <= i < r.tiles@.len() ==> no_chain(&r.tiles@[i]),
{
    let ghost orig: Seq<TileView> = tile_views(input@);
    let total = input.len();
    let mut rest = input;
    let mut tiles: Vec<Tile> = Vec::new();
    let mut removed: Vec<usize> = Vec::new();
    let mut gain: u32 = 0;
    let mut won = false;
    let mut merged_any = false;
    let mut i: usize = 0;
    while i < total
        invariant
            total == orig.len() <= 4,
            i <= total,
            rest@.len() == total - i,
            forall|n: int| 0 <= n < rest@.len() ==> (#[trigger] rest@[n])@ == orig[i + n],
            forall|n: int| 0 <= n < rest@.len() ==> 2 <= (#[trigger] rest@[n]).value
                <= 0x0800_0000,
            forall|n: int| 0 <= n < rest@.len() ==> (#[trigger] rest@[n]).merged is None,
            tile_views(tiles@) == merge_fold(orig.take(i as int)).out,
            removed@ == merge_fold(orig.take(i as int)).removed,
            gain == merge_fold(orig.take(i as int)).gain,
            won == merge_fold(orig.take(i as int)).won,
            merged_any == merge_fold(orig.take(i as int)).merged_any,
            gain <= i * 0x1000_0000,
            forall|n: int| 0 <= n < tiles@.len() ==> no_chain(&tiles@[n]),
        decreases total - i,
    {
        let ghost prefix = orig.take(i as int);
        let ghost prefix1 = orig.take(i as int + 1);
        let t = rest.remove(0);
        proof {
            assert(t@ == orig[i as int]);
            assert(prefix1.drop_last() =~= prefix);
            assert(prefix1.last() == orig[i as int]);
            assert(merge_fold(prefix1) == merge_step(merge_fold(prefix), t@));
        }
        let n = tiles.len();
        let can_merge = n > 0 && tiles[n - 1].value == t.value && tiles[n - 1].merged.is_none();
        if can_merge {
            proof {
                assert(tile_views(tiles@)[n - 1] == tiles@[n - 1]@);
            }
            let a = match tiles.pop() {
                Some(a) => a,
                None => vstd::pervasive::unreached(),
            };
            let removed_id = a.id;
            let nv = t.value * 2;
            let (background_color, text_color) = crate::colors::tile_colors(nv);
            let survivor = Tile {
                value: nv,
                id: t.id,
                background_color,
                text_color,
                row: t.row,
                col: t.col,
                merged: Some(Box::new(a)),
            };
            let ghost svv = survivor@;
            proof {
                lemma_views_push(tiles@, survivor);
                lemma_views_drop_last(tiles@.push(survivor));
            }
            tiles.push(survivor);
            removed.push(removed_id);
            gain = gain + nv;
            if nv == WINNING_TILE {
                won = true;
            }
            merged_any = true;
            proof {
                let acc = merge_fold(prefix);
                let acc1 = merge_fold(prefix1);
                assert(svv == acc1.out.last());
                assert(tile_views(tiles@) =~= acc.out.drop_last().push(svv));
                assert(acc1.out =~= acc.out.drop_last().push(svv));
                assert(removed@ =~= acc1.removed);
            }
        } else {
            proof {
                if n > 0 {
                    assert(tile_views(tiles@)[n - 1] == tiles@[n - 1]@);
                }
                lemma_views_push(tiles@, t);
            }
            tiles.push(t);
            proof {
                let acc1 = merge_fold(prefix1);
                assert(tile_views(tiles@) =~= acc1.out);
            }
        }
        i = i + 1;
    }
    proof {
        assert(orig.take(total as int) =~= orig);
    }
    LineOutcome { tiles, removed, gain, won, merged_any }
}

/// Writes a resolved line back: the tiles pack toward the target edge with
/// their coordinates (and their snapshots' coordinates) set to the cells they
/// land on; the line's remaining cells become empty. Returns whether some
/// tile landed on a cell other than the one it stood on.
pub(crate) fn write_line(
    nb: &mut Vec<Option<Tile>>,
    tiles: Vec<Tile>,
    d: Direction,
    k: usize,
) -> (moved: bool)
    requires
        old(nb)@.len() == 16,
        k < 4,
        tiles@.len() <= 4,
        forall|n: int| 0 <= n < tiles@.len() ==> no_chain(&tiles@[n]),
    ensures
        final(nb)@.len() == 16,
        forall|i: int| 0 <= i < 16 && line_of(d, i) != k ==> final(nb)@[i] == old(nb)@[i],
        forall|j: int|
            0 <= j < 4 ==> bview(final(nb)@)[cell_at(d, k as int, j)] == (if j < tiles@.len() {
                Some(adjust(tile_views(tiles@)[j], d, k as int, j))
            } else {
                None::<TileView>
            }),
        forall|j: int|
            0 <= j < 4 ==> match final(nb)@[#[trigger] cell_at(d, k as int, j)] {
                Some(t) => no_chain(&t),
                None => true,
            },
        moved == exists|j: int|
            0 <= j < tiles@.len() && ((#[trigger] tile_views(tiles@)[j]).row != cell_row(
                d,
                k as int,
                j,
            ) || tile_views(tiles@)[j].col != cell_col(d, k as int, j)),
{
    let ghost all: Seq<Tile> = tiles@;
    let total = tiles.len();
    let mut rest = tiles;
    let mut moved = false;
    let mut j: usize = 0;
    while j < 4
        invariant
            nb@.len() == 16,
            k < 4,
            j <= 4,
            total == all.len() <= 4,
            rest@.len() == (if j <= total {
                total - j
            } else {
                0
            }),
            forall|n: int| 0 <= n < rest@.len() ==> rest@[n] == all[j + n],
            forall|n: int| 0 <= n < all.len() ==> no_chain(&all[n]),
            forall|i: int| 0 <= i < 16 && line_of(d, i) != k ==> nb@[i] == old(nb)@[i],
            forall|jj: int|
                0 <= jj < j ==> bview(nb@)[cell_at(d, k as int, jj)] == (if jj < all.len() {
                    Some(adjust(tile_views(all)[jj], d, k as int, jj))
                } else {
                    None::<TileView>
                }),
            forall|jj: int|
                0 <= jj < j ==> match nb@[#[trigger] cell_at(d, k as int, jj)] {
                    Some(t) => no_chain(&t),
                    None => true,
                },
            moved == exists|jj: int|
                0 <= jj < j && jj < all.len() && ((#[trigger] tile_views(all)[jj]).row != cell_row(
                    d,
                    k as int,
                    jj,
                ) || tile_views(all)[jj].col != cell_col(d, k as int, jj)),
        decreases 4 - j,
    {
        proof {
            lemma_cell_at(d, k as int, j as int);
        }
        let (rr, cc) = cell_coords(d, k, j);
        let idx = 4 * rr + cc;
        let ghost nb_before = nb@;
        if j < total {
            let t = rest.remove(0);
            proof {
                assert(t == all[j as int]);
            }
            if t.row != rr || t.col != cc {
                moved = true;
            }
            let new_merged = match t.merged {
                Some(b) => {
                    let inner = *b;
                    Some(
                        Box::new(
                            Tile {
                                value: inner.value,
                                id: inner.id,
                                background_color: inner.background_color,
                                text_color: inner.text_color,
                                row: rr,
                                col: cc,
                                merged: inner.merged,
                            },
                        ),
                    )
                },
                None => None,
            };
            let placed = Tile {
                value: t.value,
                id: t.id,
                background_color: t.background_color,
                text_color: t.text_color,
                row: rr,
                col: cc,
                merged: new_merged,
            };
            proof {
                assert(placed@ == adjust(all[j as int]@, d, k as int, j as int));
                assert(no_chain(&placed));
                lemma_bview_update(nb_before, idx as int, Some(placed));
            }
            nb.set(idx, Some(placed));
        } else {
            proof {
                lemma_bview_update(nb_before, idx as int, None::<Tile>);
            }
            nb.set(idx, None);
        }
        proof {
            assert forall|jj: int| 0 <= jj < j implies cell_at(d, k as int, jj) != idx as int by {
                lemma_cell_at(d, k as int, jj);
            }
            assert forall|i: int| 0 <= i < 16 && line_of(d, i) != k implies nb@[i]
                == old(nb)@[i] by {
                assert(line_of(d, idx as int) == k);
            }
        }
        j = j + 1;
    }
    moved
}

/// A live tile as the board invariant keeps it, position aside: a power-of-two
/// value of at least 2, and exactly the colors derived from that value.
pub open spec fn good_tile(t: TileView) -> bool {
    &&& value_ok(t.value)
    &&& t.background == background_chars(t.value)
    &&& t.text == text_chars(t.value)
}

/// The sum of the tile values of a sequence.
pub open spec fn sum_values(s: Seq<TileView>) -> int
    decreases s.len(),
{
    if s.len() == 0 {
        0
    } else {
        sum_values(s.drop_last()) + s.last().value
    }
}

/// Whether some tile of the sequence carries the id `x`.
pub open spec fn has_tid(s: Seq<TileView>, x: usize) -> bool {
    exists|i: int| 0 <= i < s.len() && s[i].id == x
}

/// No two tiles of the sequence share an id.
pub open spec fn distinct_ids(s: Seq<TileView>) -> bool {
    forall|i: int, j: int| 0 <= i < j < s.len() ==> s[i].id != s[j].id
}

/// No two occupied board slots hold tiles that share an id.
pub open spec fn board_ids_distinct(b: Seq<Option<TileView>>) -> bool {
    forall|i1: int, i2: int|
        0 <= i1 < b.len() && 0 <= i2 < b.len() && i1 != i2 && b[i1] is Some && b[i2] is Some
            ==> b[i1]->0.id != b[i2]->0.id
}

/// How many of the first `j` cells of line `k` are occupied.
pub open spec fn count_line(b: Seq<Option<TileView>>, d: Direction, k: int, j: int) -> int
    decreases j,
{
    if j <= 0 {
        0
    } else {
        count_line(b, d, k, j - 1) + (if b[cell_at(d, k, j - 1)] is Some {
            1int
        } else {
            0int
        })
    }
}

pub proof fn lemma_sum_values_nonneg(s: Seq<TileView>)
    ensures
        sum_values(s) >= 0,
    decreases s.len(),
{
    if s.len() > 0 {
        lemma_sum_values_nonneg(s.drop_last());
    }
}

/// Structural bookkeeping of a line resolution: every input tile either
/// survives or is absorbed, a merge happened exactly when some id was freed,
/// and a line without merges keeps its tiles as they were.
pub proof fn lemma_fold_basic(s: Seq<TileView>)
    ensures
        merge_fold(s).out.len() + merge_fold(s).removed.len() == s.len(),
        merge_fold(s).merged_any <==> merge_fold(s).removed.len() > 0,
        !merge_fold(s).merged_any ==> merge_fold(s).out == s,
        merge_fold(s).gain >= 0,
    decreases s.len(),
{
    if s.len() > 0 {
        lemma_fold_basic(s.drop_last());
        let acc = merge_fold(s.drop_last());
        let t = s.last();
        if !(acc.out.len() > 0 && acc.out.last().value == t.value && acc.out.last().merged
            is None) {
            if !merge_fold(s).merged_any {
                assert(merge_fold(s).out =~= s);
            }
        }
    }
}

/// Value bookkeeping of a line resolution: surviving tiles stay well formed
/// with freshly derived colors, the line's total value is conserved (a merge
/// replaces two equal tiles by one of doubled value), and the score gained is
/// at most twice the line's total value.
pub proof fn lemma_fold_tiles(s: Seq<TileView>)
    requires
        forall|i: int|
            0 <= i < s.len() ==> good_tile(#[trigger] s[i]) && s[i].value <= 0x0800_0000,
    ensures
        forall|i: int|
            0 <= i < merge_fold(s).out.len() ==> good_tile(#[trigger] merge_fold(s).out[i])
                && merge_fold(s).out[i].value <= 0x1000_0000,
        sum_values(merge_fold(s).out) == sum_values(s),
        0 <= merge_fold(s).gain <= 2 * sum_values(s),
    decreases s.len(),
{
    if s.len() == 0 {
    } else {
        assert forall|i: int| 0 <= i < s.drop_last().len() implies good_tile(
            #[trigger] s.drop_last()[i],
        ) && s.drop_last()[i].value <= 0x0800_0000 by {
            assert(s.drop_last()[i] == s[i]);
        }
        lemma_fold_tiles(s.drop_last());
        let acc = merge_fold(s.drop_last());
        let t = s.last();
        assert(good_tile(t) && t.value <= 0x0800_0000);
        if acc.out.len() > 0 && acc.out.last().value == t.value && acc.out.last().merged is None {
            let a = acc.out.last();
            let nv = (2 * t.value) as u32;
            assert(a.value == t.value);
            assert(nv == 2 * t.value);
            assert(is_pow2(nv as int)) by {
                assert(nv as int / 2 == t.value as int);
            }
            let out1 = merge_fold(s).out;
            assert(out1 == acc.out.drop_last().push(merge_fold(s).out.last()));
            assert(sum_values(acc.out) == sum_values(acc.out.drop_last()) + a.value);
            assert(sum_values(out1) == sum_values(out1.drop_last()) + out1.last().value);
            assert(out1.drop_last() =~= acc.out.drop_last());
            assert forall|i: int| 0 <= i < out1.len() implies good_tile(#[trigger] out1[i])
                && out1[i].value <= 0x1000_0000 by {
                if i < out1.len() - 1 {
                    assert(out1[i] == acc.out[i]);
                }
            }
        } else {
            let out1 = merge_fold(s).out;
            assert(out1 == acc.out.push(t));
            assert(out1.drop_last() =~= acc.out);
            assert(sum_values(out1) == sum_values(acc.out) + t.value);
            assert forall|i: int| 0 <= i < out1.len() implies good_tile(#[trigger] out1[i])
                && out1[i].value <= 0x1000_0000 by {
                if i < out1.len() - 1 {
                    assert(out1[i] == acc.out[i]);
                }
            }
        }
    }
}

/// Id bookkeeping of a line resolution: if the line's tiles carry pairwise
/// distinct ids, then so do the survivors, so do the freed ids, the two sets
/// do not meet, and every id involved was an id of the line.
pub proof fn lemma_fold_ids(s: Seq<TileView>)
    requires
        distinct_ids(s),
    ensures
        distinct_ids(merge_fold(s).out),
        forall|i: int, j: int|
            0 <= i < j < merge_fold(s).removed.len() ==> merge_fold(s).removed[i] != merge_fold(
                s,
            ).removed[j],
        forall|i: int, j: int|
            0 <= i < merge_fold(s).out.len() && 0 <= j < merge_fold(s).removed.len() ==> (
            #[trigger] merge_fold(s).out[i]).id != (#[trigger] merge_fold(s).removed[j]),
        forall|i: int|
            0 <= i < merge_fold(s).out.len() ==> has_tid(s, (#[trigger] merge_fold(s).out[i]).id),
        forall|j: int|
            0 <= j < merge_fold(s).removed.len() ==> has_tid(s, #[trigger] merge_fold(s).removed[j]),
    decreases s.len(),
{
    if s.len() == 0 {
    } else {
        let prefix = s.drop_last();
        assert(distinct_ids(prefix)) by {
            assert forall|i: int, j: int| 0 <= i < j < prefix.len() implies prefix[i].id
                != prefix[j].id by {
                assert(prefix[i] == s[i] && prefix[j] == s[j]);
            }
        }
        lemma_fold_ids(prefix);
        let acc = merge_fold(prefix);
        let t = s.last();
        // has_tid over the prefix extends to s, and the new tile's id is new to it.
        assert forall|x: usize| has_tid(prefix, x) implies has_tid(s, x) && x != t.id by {
            let w = choose|i: int| 0 <= i < prefix.len() && prefix[i].id == x;
            assert(s[w].id == x);
            assert(s[w].id != s[s.len() - 1].id);
        }
        assert(has_tid(s, t.id)) by {
            assert(s[s.len() - 1].id == t.id);
        }
        if acc.out.len() > 0 && acc.out.last().value == t.value && acc.out.last().merged is None {
            let a = acc.out.last();
            let out1 = merge_fold(s).out;
            let rem1 = merge_fold(s).removed;
            assert(has_tid(prefix, a.id));
            assert forall|i: int| 0 <= i < out1.len() implies has_tid(
                s,
                (#[trigger] out1[i]).id,
            ) by {
                if i < out1.len() - 1 {
                    assert(out1[i] == acc.out[i]);
                    assert(has_tid(prefix, acc.out[i].id));
                } else {
                    assert(out1[i].id == t.id);
                }
            }
            assert forall|j: int| 0 <= j < rem1.len() implies has_tid(
                s,
                #[trigger] rem1[j],
            ) by {
                if j < rem1.len() - 1 {
                    assert(rem1[j] == acc.removed[j]);
                    assert(has_tid(prefix, acc.removed[j]));
                } else {
                    assert(rem1[j] == a.id);
                }
            }
            assert(distinct_ids(out1)) by {
                assert forall|i: int, j: int| 0 <= i < j < out1.len() implies out1[i].id
                    != out1[j].id by {
                    if j < out1.len() - 1 {
                        assert(out1[i] == acc.out[i] && out1[j] == acc.out[j]);
                    } else {
                        assert(out1[i] == acc.out[i]);
                        assert(has_tid(prefix, acc.out[i].id));
                        assert(out1[j].id == t.id);
                    }
                }
            }
            assert forall|i: int, j: int| 0 <= i < j < rem1.len() implies rem1[i] != rem1[j] by {
                if j < rem1.len() - 1 {
                    assert(rem1[i] == acc.removed[i] && rem1[j] == acc.removed[j]);
                } else {
                    assert(rem1[j] == a.id);
                    assert(rem1[i] == acc.removed[i]);
                    assert(acc.out[acc.out.len() - 1] == a);
                }
            }
            assert forall|i: int, j: int|
                0 <= i < out1.len() && 0 <= j < rem1.len() implies (#[trigger] out1[i]).id != (
            #[trigger] rem1[j]) by {
                if i < out1.len() - 1 {
                    assert(out1[i] == acc.out[i]);
                    if j < rem1.len() - 1 {
                        assert(rem1[j] == acc.removed[j]);
                    } else {
                        assert(rem1[j] == a.id);
                        assert(acc.out[acc.out.len() - 1] == a);
                        assert(acc.out[i].id != acc.out[acc.out.len() - 1].id);
                    }
                } else {
                    assert(out1[i].id == t.id);
                    if j < rem1.len() - 1 {
                        assert(rem1[j] == acc.removed[j]);
                        assert(has_tid(prefix, acc.removed[j]));
                    } else {
                        assert(rem1[j] == a.id);
                        assert(has_tid(prefix, a.id));
                    }
                }
            }
        } else {
            let out1 = merge_fold(s).out;
            assert(out1 == acc.out.push(t));
            assert forall|i: int| 0 <= i < out1.len() implies has_tid(
                s,
                (#[trigger] out1[i]).id,
            ) by {
                if i < out1.len() - 1 {
                    assert(out1[i] == acc.out[i]);
                    assert(has_tid(prefix, acc.out[i].id));
                } else {
                    assert(out1[i].id == t.id);
                }
            }
            assert(distinct_ids(out1)) by {
                assert forall|i: int, j: int| 0 <= i < j < out1.len() implies out1[i].id
                    != out1[j].id by {
                    if j < out1.len() - 1 {
                        assert(out1[i] == acc.out[i] && out1[j] == acc.out[j]);
                    } else {
                        assert(out1[i] == acc.out[i]);
                        assert(has_tid(prefix, acc.out[i].id));
                        assert(out1[j].id == t.id);
                    }
                }
            }
            assert forall|i: int, j: int|
                0 <= i < out1.len() && 0 <= j < merge_fold(s).removed.len() implies (
            #[trigger] out1[i]).id != (#[trigger] merge_fold(s).removed[j]) by {
                assert(merge_fold(s).removed == acc.removed);
                assert(has_tid(prefix, acc.removed[j]));
                if i < out1.len() - 1 {
                    assert(out1[i] == acc.out[i]);
                } else {
                    assert(out1[i].id == t.id);
                }
            }
        }
    }
}

/// Where the extracted tiles of a line come from: the occupied cells of that
/// line, in order, each with its snapshot discarded; and if no two occupied
/// board slots share an id, the extracted tiles' ids are pairwise distinct.
pub open spec fn extract_sourced(
    b: Seq<Option<TileView>>,
    d: Direction,
    k: int,
    j: int,
    idx: int,
) -> bool {
    exists|jj: int|
        #![trigger cell_at(d, k, jj)]
        0 <= jj < j && b[cell_at(d, k, jj)] is Some && extract_upto(b, d, k, j)[idx] == cleared(
            b[cell_at(d, k, jj)]->0,
        )
}

pub proof fn lemma_extract_props(b: Seq<Option<TileView>>, d: Direction, k: int, j: int)
    requires
        b.len() == 16,
        0 <= k < 4,
        0 <= j <= 4,
        board_ids_distinct(b),
    ensures
        extract_upto(b, d, k, j).len() <= j,
        extract_upto(b, d, k, j).len() == count_line(b, d, k, j),
        forall|idx: int|
            0 <= idx < extract_upto(b, d, k, j).len() ==> #[trigger] extract_sourced(
                b,
                d,
                k,
                j,
                idx,
            ),
        distinct_ids(extract_upto(b, d, k, j)),
    decreases j,
{
    if j > 0 {
        lemma_extract_props(b, d, k, j - 1);
        let prev = extract_upto(b, d, k, j - 1);
        let cur = extract_upto(b, d, k, j);
        lemma_cell_at(d, k, j - 1);
        match b[cell_at(d, k, j - 1)] {
            Some(t) => {
                assert(cur == prev.push(cleared(t)));
                assert forall|idx: int| 0 <= idx < cur.len() implies extract_sourced(
                    b,
                    d,
                    k,
                    j,
                    idx,
                ) by {
                    if idx < cur.len() - 1 {
                        assert(cur[idx] == prev[idx]);
                        assert(extract_sourced(b, d, k, j - 1, idx));
                        let w = choose|jj: int|
                            #![trigger cell_at(d, k, jj)]
                            0 <= jj < j - 1 && b[cell_at(d, k, jj)] is Some && extract_upto(
                                b,
                                d,
                                k,
                                j - 1,
                            )[idx] == cleared(b[cell_at(d, k, jj)]->0);
                        assert(0 <= w < j && b[cell_at(d, k, w)] is Some && cur[idx] == cleared(
                            b[cell_at(d, k, w)]->0,
                        ));
                    } else {
                        assert(0 <= j - 1 < j && b[cell_at(d, k, j - 1)] is Some && cur[idx]
                            == cleared(b[cell_at(d, k, j - 1)]->0));
                    }
                }
                assert(distinct_ids(cur)) by {
                    assert forall|i1: int, i2: int| 0 <= i1 < i2 < cur.len() implies cur[i1].id
                        != cur[i2].id by {
                        if i2 < cur.len() - 1 {
                            assert(cur[i1] == prev[i1] && cur[i2] == prev[i2]);
                        } else {
                            assert(cur[i1] == prev[i1]);
                            assert(extract_sourced(b, d, k, j - 1, i1));
                            let w = choose|jj: int|
                                #![trigger cell_at(d, k, jj)]
                                0 <= jj < j - 1 && b[cell_at(d, k, jj)] is Some && extract_upto(
                                    b,
                                    d,
                                    k,
                                    j - 1,
                                )[i1] == cleared(b[cell_at(d, k, jj)]->0);
                            lemma_cell_at(d, k, w);
                            assert(cell_at(d, k, w) != cell_at(d, k, j - 1)) by {
                                assert(pos_of(d, cell_at(d, k, w)) == w);
                                assert(pos_of(d, cell_at(d, k, j - 1)) == j - 1);
                            }
                            assert(b[cell_at(d, k, w)]->0.id != b[cell_at(d, k, j - 1)]->0.id);
                        }
                    }
                }
            },
            None => {
                assert(cur == prev);
                assert forall|idx: int| 0 <= idx < cur.len() implies extract_sourced(
                    b,
                    d,
                    k,
                    j,
                    idx,
                ) by {
                    assert(extract_sourced(b, d, k, j - 1, idx));
                    let w = choose|jj: int|
                        #![trigger cell_at(d, k, jj)]
                        0 <= jj < j - 1 && b[cell_at(d, k, jj)] is Some && extract_upto(
                            b,
                            d,
                            k,
                            j - 1,
                        )[idx] == cleared(b[cell_at(d, k, jj)]->0);
                    assert(0 <= w < j && b[cell_at(d, k, w)] is Some && cur[idx] == cleared(
                        b[cell_at(d, k, w)]->0,
                    ));
                }
            },
        }
    }
}

/// A full line without merges does not move: every tile already stands on the
/// cell it would land on.
pub proof fn lemma_full_line_unchanged(b: Seq<Option<TileView>>, d: Direction, k: int)
    requires
        b.len() == 16,
        0 <= k < 4,
        board_ids_distinct(b),
        forall|j: int|
            0 <= j < 4 ==> b[#[trigger] cell_at(d, k, j)] is Some && b[cell_at(d, k, j)]->0.row
                == cell_row(d, k, j) && b[cell_at(d, k, j)]->0.col == cell_col(d, k, j),
        !line_acc(b, d, k).merged_any,
    ensures
        !line_changed(b, d, k),
{
    reveal(line_acc);
    let s = extract_line_spec(b, d, k);
    lemma_extract_props(b, d, k, 4);
    // With all four cells occupied, extraction reads them in order.
    let c0 = cleared(b[cell_at(d, k, 0)]->0);
    let c1 = cleared(b[cell_at(d, k, 1)]->0);
    let c2 = cleared(b[cell_at(d, k, 2)]->0);
    let c3 = cleared(b[cell_at(d, k, 3)]->0);
    assert(extract_upto(b, d, k, 0) == Seq::<TileView>::empty());
    assert(extract_upto(b, d, k, 1) == extract_upto(b, d, k, 0).push(c0));
    assert(extract_upto(b, d, k, 2) == extract_upto(b, d, k, 1).push(c1));
    assert(extract_upto(b, d, k, 3) == extract_upto(b, d, k, 2).push(c2));
    assert(s == extract_upto(b, d, k, 3).push(c3));
    assert(s.len() == 4);
    assert(s[0] == c0 && s[1] == c1 && s[2] == c2 && s[3] == c3);
    lemma_fold_basic(s);
    let acc = line_acc(b, d, k);
    assert(acc.out == s);
    assert forall|j: int| 0 <= j < acc.out.len() implies acc.out[j].row == cell_row(d, k, j)
        && acc.out[j].col == cell_col(d, k, j) by {
        assert(acc.out[j] == cleared(b[cell_at(d, k, j)]->0));
    }
}

} // verus!
