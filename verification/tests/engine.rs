use rust_2048::{Game, Tile, BOARD_DIMENSION, NUM_TILES};

/// Ensure that the generation of 2-tiles outnumbers the generation of 4-tiles 4:1 given a
/// sufficiently large sample size and across multiple trials.
#[test]
fn lib_test_new_tile_rng() {
    let game = Game::new();
    let num_trials = 100;

    for i in 0..num_trials {
        println!("Test iteration: {i}");

        let mut two_count = 0;
        let mut four_count = 0;

        const SAMPLE_SIZE: u32 = 10000;

        for _ in 0..SAMPLE_SIZE {
            let tile = game.generate_tile_value();

            if tile == game.new_tile_params.tile_choices[0] {
                two_count += 1;
            } else {
                four_count += 1;
            }
        }

        let two_dist = two_count as f32 / SAMPLE_SIZE as f32;
        let four_dist = four_count as f32 / SAMPLE_SIZE as f32;

        let expected_ratio = game.new_tile_params.tile_weights[0] as f32;
        let actual_ratio = two_dist / four_dist;

        // Run `cargo test -- --nocapture` to show stdout
        println!("Expected 2:4 ratio: {expected_ratio}:1");
        println!("Actual 2:4 ratio: {actual_ratio}:1");

        let error_margin = expected_ratio * 0.20;
        let expected_ratio_range = (expected_ratio - error_margin)..=(expected_ratio + error_margin);

        assert!(expected_ratio_range.contains(&actual_ratio));
    }
}

/// Ensure that the maintainance and random selection of free slots is working correctly.
#[test]
fn test_updating_and_randomly_selecting_free_slots() {
    let mut game = Game::new();
    const NUM_STARTING_TILES: usize = 2;

    // Ensure that number of starting tiles is correct.
    game.update_free_slots();
    assert_eq!(game.free_slots.len(), NUM_TILES - NUM_STARTING_TILES);

    // Fill all empty slots with placeholders.
    for _ in NUM_STARTING_TILES..NUM_TILES {
        let coord = game.get_random_free_slot();

        match coord {
            Some((row, col)) => {
                game.board[row * BOARD_DIMENSION + col] =
                    Some(Tile::new(0, 0, "orange".to_string(), "pink".to_string(), row, col))
            },
            None => panic!("Game board filled up unexpectedly."),
        }
    }

    // Ensure that all board slots are filled.
    game.update_free_slots();
    assert_eq!(game.free_slots.len(), 0);

    // Brute force assurance that all board slots are filled.
    for row in 0..BOARD_DIMENSION {
        for col in 0..BOARD_DIMENSION {
            if game.board[row * BOARD_DIMENSION + col].is_none() {
                panic!("Free board slots remain after filling with placeholders.");
            }
        }
    }

    // Ensure that attempting to obtain a free slot when the board is full returns `None`.
    assert_eq!(game.get_random_free_slot(), None);
}

/// A new game should:
///
/// 1) Be empty save for two initial tiles.
/// 2) Have one 4-tile and one 2-tile -OR- two 2-tiles.
///
/// Running multiple trials due the random nature of new game generation.
#[test]
fn test_new_game() {
    const NUM_STARTING_TILES: usize = 2;
    let num_trials = 100;

    for _ in 0..num_trials {
        let game = Game::new();
        let mut starting_tiles = Vec::new();

        for row in 0..BOARD_DIMENSION {
            for col in 0..BOARD_DIMENSION {
                if let Some(u) = &game.board[row * BOARD_DIMENSION + col] {
                    starting_tiles.push(u);
                }
            }
        }

        // Check that number of starting tiles is correct.
        assert_eq!(starting_tiles.len(), NUM_STARTING_TILES);

        // Check that starting tiles are valid.
        assert!(game.new_tile_params.tile_choices.contains(&starting_tiles[0].value));
        assert!(game.new_tile_params.tile_choices.contains(&starting_tiles[1].value));

        // Check condition 2)
        if starting_tiles[0].value == starting_tiles[1].value {
            assert_eq!(starting_tiles[0].value, game.new_tile_params.tile_choices[0]);
        }
    }
}

/// Tests whether tiles are generating the correct colors.
#[test]
fn test_color_generator() {
    let game = Game::new();

    let base: u32 = 2;
    let mut power = 1;
    let max_power = 30;

    while power < max_power {
        let tile_value = base.pow(power);
        let tile_color = game.get_tile_colors(tile_value);
        print_color_to_stdout(tile_color.0, tile_value);
        power += 1;
    }
}

fn print_color_to_stdout(hex_color: String, tile_value: u32) {
    let color = &hex_color[1..];

    // Convert the hexadecimal color to RGB values
    let red = u8::from_str_radix(&color[0..2], 16).unwrap_or(0);
    let green = u8::from_str_radix(&color[2..4], 16).unwrap_or(0);
    let blue = u8::from_str_radix(&color[4..6], 16).unwrap_or(0);

    // Generate the ANSI escape code for the RGB color
    let formatted_color = format!("\x1b[38;2;{};{};{}m", red, green, blue);
    // ANSI escape code for resetting text color
    let reset_code = "\x1b[0m";

    println!("Tile color is {}{}{}", formatted_color, tile_value, reset_code);
}

/// Ensure that the early model's generation of 2-tiles outnumbers 4-tiles 4:1.
#[test]
fn model_test_new_tile_rng() {
    let num_trials = 100;

    for i in 0..num_trials {
        println!("Test iteration: {i}");

        let mut two_count = 0;
        let mut four_count = 0;

        const TEST_SAMPLE_SIZE: u32 = 10000;

        for _ in 0..TEST_SAMPLE_SIZE {
            let tile = rust_2048::model::Game::generate_tile();

            if tile == 2 {
                two_count += 1;
            } else if tile == 4 {
                four_count += 1;
            }
        }

        let two_dist = two_count as f32 / TEST_SAMPLE_SIZE as f32;
        let four_dist = four_count as f32 / TEST_SAMPLE_SIZE as f32;

        let expected_ratio = 4.0_f32;
        let actual_ratio = two_dist / four_dist;

        // Run `cargo test -- --nocapture` to show stdout
        println!("Expected 2:4 ratio: {expected_ratio}:1");
        println!("Actual 2:4 ratio: {actual_ratio}:1");

        let error_margin = expected_ratio * 0.20;

        let expected_ratio_range = (expected_ratio - error_margin)..(expected_ratio + error_margin);

        assert!(expected_ratio_range.contains(&actual_ratio));
    }
}
