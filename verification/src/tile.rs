use vstd::prelude::*;
use crate::colors::{background_chars, text_chars, is_pow2};

verus! {

/// One numbered piece on the board. `merged` transiently carries a snapshot of
/// the tile that was absorbed into this one during the current move, so that a
/// caller can animate the absorbed tile's final slide before removing it; it
/// never nests further (the snapshot's own `merged` is `None`).
#[derive(PartialEq)]
pub struct Tile {
    pub value: u32,
    pub id: usize,
    pub background_color: String,
    pub text_color: String,
    pub row: usize,
    pub col: usize,
    pub merged: Option<Box<Tile>>,
}

/// The mathematical image of a snapshot carried in a tile's `merged` field.
#[verifier::ext_equal]
pub ghost struct SnapView {
    pub value: u32,
    pub id: usize,
    pub row: usize,
    pub col: usize,
    pub background: Seq<char>,
    pub text: Seq<char>,
}

/// The mathematical image of a tile: its fields with the color strings
/// abstracted to character sequences and the consumed-tile snapshot flattened.
#[verifier::ext_equal]
pub ghost struct TileView {
    pub value: u32,
    pub id: usize,
    pub row: usize,
    pub col: usize,
    pub background: Seq<char>,
    pub text: Seq<char>,
    pub merged: Option<SnapView>,
}

pub open spec fn snap_of(t: &Tile) -> SnapView {
    SnapView {
        value: t.value,
        id: t.id,
        row: t.row,
        col: t.col,
        background: t.background_color@,
        text: t.text_color@,
    }
}

impl View for Tile {
    type V = TileView;

    open spec fn view(&self) -> TileView {
        TileView {
            value: self.value,
            id: self.id,
            row: self.row,
            col: self.col,
            background: self.background_color@,
            text: self.text_color@,
            merged: match self.merged {
                Some(b) => Some(snap_of(&b)),
                None => None,
            },
        }
    }
}

/// A tile view whose `merged` snapshot has been discarded, as at the start of
/// a move resolution.
pub open spec fn cleared(t: TileView) -> TileView {
    TileView { merged: None, ..t }
}

/// A well-formed live tile value: an exact power of two, at least 2.
pub open spec fn value_ok(v: u32) -> bool {
    v >= 2 && is_pow2(v as int)
}

/// A well-formed live tile at board slot (`row`, `col`): its coordinates match
/// the slot, its value is a power of two at least 2, and its colors are the
/// ones derived from its value.
pub open spec fn tile_ok(t: TileView, row: int, col: int) -> bool {
    &&& t.row == row
    &&& t.col == col
    &&& value_ok(t.value)
    &&& t.background == background_chars(t.value)
    &&& t.text == text_chars(t.value)
}

/// The consumed-tile snapshot is value-copied and never merge-aware: a tile
/// carried inside another tile's `merged` field has no `merged` of its own.
pub open spec fn no_chain(t: &Tile) -> bool {
    match t.merged {
        Some(b) => b.merged is None,
        None => true,
    }
}

impl Tile {
    pub fn new(
        value: u32,
        id: usize,
        background_color: String,
        text_color: String,
        row: usize,
        col: usize,
    ) -> (t: Tile)
        ensures
            t@ == (TileView {
                value,
                id,
                row,
                col,
                background: background_color@,
                text: text_color@,
                merged: None,
            }),
            t.merged is None,
    {
        Tile { value, id, background_color, text_color, row, col, merged: None }
    }
}

/// Copies a tile by value, snapshot included.
pub fn clone_tile(t: &Tile) -> (r: Tile)
    ensures
        r == *t,
    decreases *t,
{
    let merged = match &t.merged {
        Some(b) => Some(Box::new(clone_tile(b))),
        None => None,
    };
    Tile {
        value: t.value,
        id: t.id,
        background_color: t.background_color.clone(),
        text_color: t.text_color.clone(),
        row: t.row,
        col: t.col,
        merged,
    }
}

} // verus!
