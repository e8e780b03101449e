use kvadrat_strategy::binary64::{js_round, round, ONE};
use kvadrat_strategy::board::{cell_letter, cell_piece, valid_cell, valid_cells};
use kvadrat_strategy::evaluation::FULLNESS_FACTORS;
use kvadrat_strategy::lexicon::is_word;
use kvadrat_strategy::pieces::{
    collides, rotated_blocks, shifted_letters, unique_cycles, valid_letters,
};
use kvadrat_strategy::placement::clear_lines;
use kvadrat_strategy::random::{
    game_seed, mixed_hash, split_index, XorShift32, XorShift64,
};
use kvadrat_strategy::statistics::{in_order, middle, sum, tally};
use kvadrat_strategy::words::score_word;

fn fresh32(state: u32) -> u32 {
    let mut next = state;
    next ^= next << 13;
    next ^= next >> 17;
    next ^= next << 5;
    next
}

#[test]
fn xorshift_sequence_matches_the_browser_generator() {
    let mut random = XorShift32::new(2_654_860_003);
    let actual = std::array::from_fn::<_, 6, _>(|_| random.next_u32());
    assert_eq!(
        actual,
        [
            743_561_395,
            4_289_843_472,
            2_011_547_897,
            296_451_844,
            3_073_623_041,
            969_144_536,
        ]
    );
}

#[test]
fn letter_cycles_wrap_in_browser_order() {
    assert_eq!(shifted_letters([17, 9, 14, 19], 1), [9, 14, 19, 17]);
    assert_eq!(shifted_letters([17, 9, 14, 19], 3), [19, 17, 9, 14]);
}

#[test]
fn repeated_letters_have_fewer_cycles() {
    let shifts = |letters: [u8; 4]| -> Vec<u8> {
        unique_cycles(letters).iter().map(|cycle| cycle.shift).collect()
    };
    assert_eq!(shifts([1, 2, 3, 4]), [0, 1, 2, 3]);
    assert_eq!(shifts([1, 2, 1, 2]), [0, 1]);
    assert_eq!(shifts([5, 5, 5, 5]), [0]);
    assert_eq!(shifts([1, 1, 2, 2]), [0, 1, 2, 3]);
    assert_eq!(unique_cycles([1, 2, 3, 4])[1].letters, [2, 3, 4, 1]);
    assert!(valid_letters(&[1, 26, 13, 2]));
    assert!(!valid_letters(&[1, 27, 13, 2]));
    assert!(!valid_letters(&[1, 0, 13, 2]));
}

#[test]
fn four_turns_bring_a_piece_back() {
    for kind in 0..7 {
        let places = |rotation: u8| -> Vec<(i8, i8)> {
            rotated_blocks(kind, rotation).iter().map(|block| (block.x, block.y)).collect()
        };
        assert_eq!(places(0), places(4));
    }
    let upright: Vec<(i8, i8)> = rotated_blocks(0, 1).iter().map(|b| (b.x, b.y)).collect();
    assert_eq!(upright, [(2, 0), (2, 1), (2, 2), (2, 3)]);
    let j: Vec<(i8, i8)> = rotated_blocks(1, 1).iter().map(|b| (b.x, b.y)).collect();
    assert_eq!(j, [(2, 0), (1, 0), (1, 1), (1, 2)]);
}

#[test]
fn pieces_collide_with_walls_and_with_blocks() {
    let mut board = [0u8; 220];
    assert!(!collides(&board, 0, 0, -1, 0));
    assert!(collides(&board, 0, 0, -2, 0));
    assert!(collides(&board, 0, 0, 0, 7));
    assert!(!collides(&board, 0, 0, 20, 6));
    assert!(collides(&board, 0, 0, 21, 6));
    board[15] = 33;
    assert!(collides(&board, 0, 0, 0, 3));
    assert!(!collides(&board, 0, 0, 1, 3));
}

#[test]
fn cells_hold_a_letter_and_a_color() {
    assert!(valid_cell(0));
    assert!(valid_cell(26 | (7 << 5)));
    assert!(!valid_cell(27 | (7 << 5)));
    assert!(!valid_cell(5));
    assert!(!valid_cell(1 << 5));
    assert_eq!((cell_letter(3 | (4 << 5)), cell_piece(3 | (4 << 5))), (3, 4));
    assert!(valid_cells(&[0, 33]));
    assert!(!valid_cells(&[0, 32]));
}

#[test]
fn word_scores_grow_with_the_square_of_the_length() {
    assert_eq!(score_word(&[6, 1, 22]), 81);
    assert_eq!(score_word(&[17, 26]), 80);
    assert_eq!(score_word(&[26; 10]), 10_000);
    assert_eq!(score_word(&[]), 0);
}

#[test]
fn the_word_graph_is_walked_by_siblings() {
    // AB, AC, BA
    let tile = |letter: u32, arc: u32, end: bool, accepts: bool| {
        (letter << 24) | arc | (u32::from(end) << 22) | (u32::from(accepts) << 23)
    };
    let nodes = [
        tile(0, 2, true, false),
        0,
        tile(1, 4, false, false),
        tile(2, 6, true, false),
        tile(2, 0, false, true),
        tile(3, 0, true, true),
        tile(1, 0, true, true),
    ];
    assert!(is_word(&nodes, &[1, 2]));
    assert!(is_word(&nodes, &[1, 3]));
    assert!(is_word(&nodes, &[2, 1]));
    assert!(!is_word(&nodes, &[2, 2]));
    assert!(!is_word(&nodes, &[1, 2, 1]));
    assert!(!is_word(&[], &[1, 2]));
}

#[test]
fn clearing_moves_the_rows_above_down() {
    let mut board = [0u8; 220];
    for col in 0..10 {
        board[200 + col] = 33;
    }
    board[190] = 34;
    board[215] = 35;
    let clearing = clear_lines(&[], &board);
    assert_eq!(clearing.lines, 1);
    assert_eq!(clearing.score, 0);
    assert_eq!(clearing.board[200], 34);
    assert_eq!(clearing.board[215], 35);
    assert_eq!(clearing.board.iter().filter(|&&cell| cell != 0).count(), 2);
}

#[test]
fn rounding_equals_the_hardware() {
    let mut state = 1u32;
    for step in 0..20_000u32 {
        state = fresh32(state);
        let high = i128::from(state);
        state = fresh32(state);
        let value = ((high << 32) | i128::from(state)) << (step % 40);
        let value = if step % 2 == 0 { value } else { -value };
        assert_eq!(round(value), (value as f64) as i128);
    }
    assert_eq!(round((1 << 53) + 1), 1 << 53);
    assert_eq!(round((1 << 53) + 3), (1 << 53) + 4);
    assert_eq!(round(-(1 << 53) - 1), -(1 << 53));
    assert_eq!(round(12_345), 12_345);
}

#[test]
fn halves_are_rounded_upwards() {
    assert_eq!(js_round(ONE / 2), 1);
    assert_eq!(js_round(-ONE / 2), 0);
    assert_eq!(js_round(-ONE / 2 - 1), -1);
    assert_eq!(js_round(7 * ONE / 4), 2);
    assert_eq!(js_round(-7 * ONE / 4), -2);
    assert_eq!(js_round(0), 0);
    assert_eq!(js_round(ONE << 40), i32::MAX);
    assert_eq!(js_round(-(ONE << 40)), i32::MIN);
}

#[test]
fn fullness_factors_are_those_of_floating_point() {
    for (count, &factor) in FULLNESS_FACTORS.iter().enumerate() {
        let fullness = std::hint::black_box(count) as f64 / 10.0;
        let expected = 0.18 + 1.12 * fullness.powi(4);
        assert_eq!((factor as f64 / ONE as f64).to_bits(), expected.to_bits());
    }
}

#[test]
fn random_places_are_those_of_floating_point() {
    for length in [1usize, 2, 7, 10, 1_000, 123_457, 1 << 30] {
        let mut random = XorShift32::new(99);
        let mut state = 99u32;
        for _ in 0..200 {
            state = fresh32(state);
            let unit = state as f64 / 4_294_967_296.0;
            let place = random.index(length);
            assert_eq!(place, (unit * length as f64).floor() as usize);
            assert!(place < length);
        }
    }
    assert_eq!(XorShift32::new(0).state, 0x9e37_79b9);
    assert_eq!(XorShift32::new(5).index(0), 0);
}

#[test]
fn shuffles_keep_every_value() {
    let mut random = XorShift64::new(0x4b56_4144_5241_5401);
    let mut values: Vec<u32> = (0..100).collect();
    let mut copy = values.clone();
    let mut state = 0x4b56_4144_5241_5401u64;
    random.shuffle(&mut values);
    for index in (1..copy.len()).rev() {
        state ^= state << 13;
        state ^= state >> 7;
        state ^= state << 17;
        copy.swap(index, state as usize % (index + 1));
    }
    assert_eq!(values, copy);
    assert_eq!(random.state, state);
    values.sort();
    assert_eq!(values, (0..100).collect::<Vec<u32>>());
    assert_eq!(XorShift64::new(0).state, 1);
    let mut twin = XorShift64::new(7);
    let mut other = XorShift64::new(7);
    assert_eq!(u64::from(twin.unit_bits()), other.next() >> 40);
}

#[test]
fn hashes_spread_seeds_over_the_splits() {
    let mixed_by_hand = |seed: u32| {
        let mut mixed = seed;
        mixed ^= mixed >> 16;
        mixed = mixed.wrapping_mul(0x7feb_352d);
        mixed ^= mixed >> 15;
        mixed = mixed.wrapping_mul(0x846c_a68b);
        mixed ^= mixed >> 16;
        mixed
    };
    let mut counts = [0usize; 3];
    for seed in 0..10_000u32 {
        let expected = match mixed_by_hand(seed) % 10 {
            9 => 2,
            8 => 1,
            _ => 0,
        };
        assert_eq!(split_index(seed), expected);
        counts[expected] += 1;
    }
    assert!(counts[0] > 7_500 && counts[1] > 800 && counts[2] > 800);
    assert_eq!(
        mixed_hash(123, 45),
        mixed_by_hand(123 ^ 45u32.wrapping_mul(0x9e37_79b1))
    );
    assert_eq!(game_seed(12_628_309, 0), 12_628_309u32.wrapping_add(0x9e37_79b1));
    assert_eq!(
        game_seed(1, 0x1_0000_0002),
        1u32.wrapping_add(3u32.wrapping_mul(0x9e37_79b1))
    );
}

#[test]
fn statistics_count_whole_numbers() {
    let values = vec![5i64, -3, 0, 12, -3];
    assert_eq!(sum(&values), 11);
    assert_eq!(middle(&values), Some((0, 0)));
    assert_eq!(middle(&vec![9, 1, 4, 2]), Some((2, 4)));
    assert_eq!(middle(&vec![]), None);
    assert_eq!(in_order(&vec![9, 1, 4, -2, 4]), [-2, 1, 4, 4, 9]);
    let counts = tally(&values);
    assert_eq!((counts.wins, counts.ties, counts.losses), (2, 1, 2));
}

#[test]
fn games_of_a_run_have_different_seeds() {
    let seeds: std::collections::HashSet<u32> =
        (0..20_000u64).map(|game| game_seed(12_628_309, game)).collect();
    assert_eq!(seeds.len(), 20_000);
}

#[test]
fn the_generator_never_reaches_zero() {
    let mut random = XorShift32::new(1);
    let mut seen = std::collections::HashSet::new();
    for _ in 0..50_000 {
        let number = random.next_u32();
        assert!(number != 0);
        assert!(seen.insert(number));
    }
}
