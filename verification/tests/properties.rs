use rust_2048::{Game, InputResult, Tile, BOARD_DIMENSION, NUM_IDS};

/// Empties the board and resets the score, leaving a game ready for a
/// hand-built position.
fn clear(game: &mut Game) {
    for i in 0..16 {
        game.board[i] = None;
    }
    game.score = 0;
}

/// Places a tile of the given value and id, with the colors derived from the
/// value, on the given slot.
fn place(game: &mut Game, value: u32, id: usize, row: usize, col: usize) {
    let (background, text) = game.get_tile_colors(value);
    game.board[row * BOARD_DIMENSION + col] = Some(Tile::new(value, id, background, text, row, col));
}

fn value_at(game: &Game, row: usize, col: usize) -> Option<u32> {
    game.board[row * BOARD_DIMENSION + col].as_ref().map(|t| t.value)
}

/// A line `[2, 2, 2, 2]` moved toward either end yields two 4s adjacent to
/// that end, with exactly two merges — never a single 8.
#[test]
fn no_double_merge() {
    for direction in ["ArrowLeft", "ArrowRight"] {
        let mut game = Game::new();
        clear(&mut game);
        for col in 0..4 {
            place(&mut game, 2, 10 + col, 0, col);
        }

        match game.receive_input(direction) {
            InputResult::Moved(_, tiles, won) => {
                assert!(!won);
                // Two merges consumed two tiles; one new tile spawned.
                assert_eq!(tiles.len(), 3);
                let merged: Vec<&Tile> = tiles.iter().filter(|t| t.merged.is_some()).collect();
                assert_eq!(merged.len(), 2);
                for t in &tiles {
                    assert!(t.value != 8);
                }
            },
            InputResult::Rejected(_) => panic!("a full line of equal tiles must move"),
        }

        // The two 4s pack against the moved-toward edge of row 0.
        if direction == "ArrowLeft" {
            assert_eq!(value_at(&game, 0, 0), Some(4));
            assert_eq!(value_at(&game, 0, 1), Some(4));
        } else {
            assert_eq!(value_at(&game, 0, 3), Some(4));
            assert_eq!(value_at(&game, 0, 2), Some(4));
        }
        // Each merge of two 2s scores the doubled value 4.
        assert_eq!(game.score, 8);
    }
}

/// The line `[2, _, 2, 4]` moved left becomes `[4, 4, ...]`: the two 2s merge
/// into a 4 that sits next to the original 4 without merging into it, and the
/// score grows by 4.
#[test]
fn example_line() {
    let mut game = Game::new();
    clear(&mut game);
    place(&mut game, 2, 10, 0, 0);
    place(&mut game, 2, 11, 0, 2);
    place(&mut game, 4, 12, 0, 3);

    match game.receive_input("ArrowLeft") {
        InputResult::Moved(_, tiles, _) => {
            assert_eq!(tiles.len(), 3);
        },
        InputResult::Rejected(_) => panic!("the example line must move"),
    }

    let first = game.board[0].as_ref().expect("merged 4 at the left edge");
    assert_eq!(first.value, 4);
    // The merged tile keeps the sliding tile's id and records the absorbed
    // tile's snapshot, moved to the shared destination.
    assert_eq!(first.id, 11);
    let consumed = first.merged.as_ref().expect("consumed snapshot");
    assert_eq!(consumed.value, 2);
    assert_eq!(consumed.id, 10);
    assert_eq!((consumed.row, consumed.col), (0, 0));

    let second = game.board[1].as_ref().expect("original 4 beside it");
    assert_eq!(second.value, 4);
    assert_eq!(second.id, 12);
    assert!(second.merged.is_none());

    assert_eq!(game.score, 4);
}

/// A move that changes nothing is rejected and leaves the game byte-identical
/// to its pre-call state; repeating it never spawns tiles or changes score.
#[test]
fn idempotent_rejection() {
    let mut game = Game::new();
    clear(&mut game);
    place(&mut game, 2, 3, 0, 0);
    place(&mut game, 4, 4, 1, 0);
    place(&mut game, 2, 5, 2, 0);
    place(&mut game, 4, 6, 3, 0);

    let tiles_before = game.get_tiles();
    let score_before = game.score;

    for _ in 0..3 {
        match game.receive_input("ArrowLeft") {
            InputResult::Rejected(_) => {},
            InputResult::Moved(..) => panic!("a packed column cannot move left"),
        }
        assert!(game.get_tiles() == tiles_before);
        assert_eq!(game.score, score_before);
    }
}

/// An unrecognized input token is treated like a move that changes nothing.
#[test]
fn unknown_token_rejected() {
    let mut game = Game::new();
    let tiles_before = game.get_tiles();
    let score_before = game.score;
    match game.receive_input("Space") {
        InputResult::Rejected(_) => {},
        InputResult::Moved(..) => panic!("an unknown token must not move"),
    }
    assert!(game.get_tiles() == tiles_before);
    assert_eq!(game.score, score_before);
}

/// `game_over` is true exactly when all four directions are rejected.
#[test]
fn game_over_correctness() {
    // A checkerboard of 2s and 4s has no move in any direction.
    let mut game = Game::new();
    clear(&mut game);
    for row in 0..4 {
        for col in 0..4 {
            let value = if (row + col) % 2 == 0 { 2 } else { 4 };
            place(&mut game, value, row * 4 + col, row, col);
        }
    }
    assert!(game.game_over());
    for direction in ["ArrowUp", "ArrowDown", "ArrowLeft", "ArrowRight"] {
        match game.receive_input(direction) {
            InputResult::Rejected(_) => {},
            InputResult::Moved(..) => panic!("no direction may move on a stuck board"),
        }
    }

    // Making two equal tiles adjacent revives the game.
    place(&mut game, 2, 1, 0, 1);
    assert!(!game.game_over());

    // A fresh game always has free slots, so it is never over.
    let fresh = Game::new();
    assert!(!fresh.game_over());
}

/// Reaching the winning value reports a win exactly once across the game's
/// lifetime.
#[test]
fn win_once() {
    let mut game = Game::new();
    clear(&mut game);
    place(&mut game, 1024, 1, 0, 0);
    place(&mut game, 1024, 2, 0, 2);

    match game.receive_input("ArrowLeft") {
        InputResult::Moved(_, _, won) => assert!(won),
        InputResult::Rejected(_) => panic!("the two 1024s must merge"),
    }
    assert!(game.game_won);

    // A second winning merge never re-triggers the flag.
    clear(&mut game);
    place(&mut game, 2048, 3, 0, 0);
    place(&mut game, 1024, 4, 2, 0);
    place(&mut game, 1024, 5, 2, 2);

    match game.receive_input("ArrowLeft") {
        InputResult::Moved(_, _, won) => assert!(!won),
        InputResult::Rejected(_) => panic!("the second pair of 1024s must merge"),
    }
    assert!(game.game_won);
}

/// After any successful move, the score grows exactly by the sum of the
/// doubled merge values, and the board's total value grows exactly by the
/// spawned tile's value (2 or 4).
#[test]
fn conservation() {
    let mut game = Game::new();
    let directions = ["ArrowLeft", "ArrowUp", "ArrowRight", "ArrowDown"];
    let mut moves = 0;
    for turn in 0..200 {
        let sum_before: u64 = game.get_tiles().iter().map(|t| t.value as u64).sum();
        let score_before = game.score;
        match game.receive_input(directions[turn % 4]) {
            InputResult::Moved(_, tiles, _) => {
                moves += 1;
                let merge_gain: u64 =
                    tiles.iter().filter(|t| t.merged.is_some()).map(|t| t.value as u64).sum();
                assert_eq!(game.score as u64, score_before as u64 + merge_gain);
                let sum_after: u64 = tiles.iter().map(|t| t.value as u64).sum();
                let spawned = sum_after - sum_before;
                assert!(spawned == 2 || spawned == 4);
            },
            InputResult::Rejected(_) => {
                if game.game_over() {
                    break;
                }
            },
        }
    }
    assert!(moves > 0);
}

/// No two live tiles ever share an id, and ids stay within the pool's range.
#[test]
fn unique_ids() {
    let mut game = Game::new();
    let directions = ["ArrowLeft", "ArrowUp", "ArrowRight", "ArrowDown"];
    for turn in 0..200 {
        match game.receive_input(directions[turn % 4]) {
            InputResult::Moved(_, tiles, _) => {
                for (i, a) in tiles.iter().enumerate() {
                    assert!(a.id < NUM_IDS);
                    for b in tiles.iter().skip(i + 1) {
                        assert!(a.id != b.id);
                    }
                }
            },
            InputResult::Rejected(_) => {
                if game.game_over() {
                    break;
                }
            },
        }
    }
}

/// The same value always yields byte-identical colors, and small values hit
/// their exact palette entries.
#[test]
fn color_determinism() {
    let game = Game::new();
    for p in 1..31 {
        let value = 2u32.pow(p);
        let first = game.get_tile_colors(value);
        let second = game.get_tile_colors(value);
        assert_eq!(first, second);
    }

    // The first palette entry, an interpolated step, and the winning value.
    assert_eq!(game.get_tile_colors(2), ("#F2BA0D".to_string(), "#072931".to_string()));
    assert_eq!(game.get_tile_colors(4), ("#F37F1E".to_string(), "#072931".to_string()));
    assert_eq!(game.get_tile_colors(16), ("#F50A40".to_string(), "#f2ba0d".to_string()));
    assert_eq!(game.get_tile_colors(2048), ("#974778".to_string(), "#072931".to_string()));
    // The palette repeats every twelfth power.
    assert_eq!(game.get_tile_colors(2), game.get_tile_colors(2u32 << 12));
}

/// The base-2 logarithm used for color derivation, on exact inputs.
#[test]
fn log_2_values() {
    assert_eq!(rust_2048::log_2(1), 0);
    assert_eq!(rust_2048::log_2(2), 1);
    assert_eq!(rust_2048::log_2(3), 1);
    assert_eq!(rust_2048::log_2(2048), 11);
    assert_eq!(rust_2048::log_2(u32::MAX), 31);
}

/// The fixed interface colors.
#[test]
fn fixed_colors() {
    let colors = rust_2048::Colors::new();
    assert_eq!(colors.text_light, "#f2ba0d");
    assert_eq!(colors.text_dark, "#072931");
    assert_eq!(colors.board, "#022244");
    assert_eq!(colors.opacity, "99");
}
