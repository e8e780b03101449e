use kvadrat_strategy::binary64::{can_be_ordered, check_finite, js_round, ONE};
use kvadrat_strategy::float64::{add_numbers, multiply, pattern_of, round_half_up, whole_of};
use kvadrat_strategy::models::{FragmentModelPair, RootRankModel};
use kvadrat_strategy::native::{
    can_rerank, FragmentRerank, PackedBoard, Piece, Strategy, HEIGHT, WIDTH,
};
use kvadrat_strategy::pool::RootRerank;
use kvadrat_strategy::rerank::{best_of, weigh};
use std::collections::{BTreeMap, HashSet};

#[derive(Default)]
struct Trie {
    accepts: bool,
    children: BTreeMap<u8, Trie>,
}

fn write_list(node: &Trie, nodes: &mut Vec<u32>) -> u32 {
    if node.children.is_empty() {
        return 0;
    }
    let start = nodes.len();
    nodes.resize(start + node.children.len(), 0);
    let last = node.children.len() - 1;
    for (offset, (letter, child)) in node.children.iter().enumerate() {
        let arc = write_list(child, nodes);
        let end = if offset == last { 0x400000 } else { 0 };
        let accepts = if child.accepts { 0x800000 } else { 0 };
        nodes[start + offset] = arc | end | accepts | (u32::from(*letter) << 24);
    }
    start as u32
}

fn kwg(words: &[&str]) -> Vec<u8> {
    let mut root = Trie::default();
    for word in words {
        let mut node = &mut root;
        for letter in word.bytes() {
            node = node.children.entry(letter - b'A' + 1).or_default();
        }
        node.accepts = true;
    }
    let mut nodes = vec![0u32, 0x400000];
    let start = write_list(&root, &mut nodes);
    nodes[0] = start | 0x400000;
    nodes.iter().flat_map(|node| node.to_le_bytes()).collect()
}

fn strategy() -> Strategy {
    Strategy::from_kwg_bytes(&kwg(&[
        "FAV", "FAVE", "FAVER", "AVE", "RATE", "RATES", "LION", "LIONS", "STAR", "EON", "EONS",
        "TILE", "WORD", "GAME", "ART", "TAR", "TEA", "EAT", "ION", "ORATE", "AA",
    ]))
    .expect("small word list")
}

fn cell(letter: u8, piece: u8) -> u8 {
    (letter - b'A' + 1) | ((piece + 1) << 5)
}

fn piece(kind: u8, letters: &[u8; 4]) -> Piece {
    Piece {
        kind,
        letters: letters.map(|letter| letter - b'A' + 1),
    }
}

fn sequence() -> [Piece; 3] {
    [piece(0, b"FAVE"), piece(3, b"RATE"), piece(5, b"LION")]
}

fn visible() -> [Piece; 5] {
    [
        piece(2, b"STAR"),
        piece(4, b"EONS"),
        piece(6, b"TILE"),
        piece(1, b"WORD"),
        piece(3, b"GAME"),
    ]
}

fn model_bytes(magic: &[u8; 8], floats: usize, outputs: u32) -> Vec<u8> {
    let mut bytes = vec![0; 32 + floats * 4];
    bytes[..8].copy_from_slice(magic);
    bytes[8..12].copy_from_slice(&1u32.to_le_bytes());
    bytes[12..16].copy_from_slice(&(floats as u32).to_le_bytes());
    bytes[16..20].copy_from_slice(&outputs.to_le_bytes());
    bytes[20..24].copy_from_slice(&10u32.to_le_bytes());
    bytes
}

fn zero_root_ranker() -> Vec<u8> {
    model_bytes(b"KVRK1\0\0\0", 15_349, 4)
}

fn units(value: i128) -> f64 {
    value as f64 / ONE as f64
}

#[test]
fn words_require_a_visible_piece_boundary() {
    let strategy = strategy();
    let mut row = [0u8; WIDTH];
    row[0] = cell(b'F', 0);
    row[1] = cell(b'A', 0);
    row[2] = cell(b'V', 1);

    let words = strategy.analyze_row(&row).expect("valid row");
    assert_eq!(words.len(), 1);
    assert_eq!(words[0].text, "FAV");
    assert_eq!(words[0].score, 81);

    row[2] = cell(b'V', 0);
    assert!(strategy.analyze_row(&row).expect("valid row").is_empty());

    row[2] = 31 | (1 << 5);
    assert!(strategy.analyze_row(&row).is_none());
}

#[test]
fn row_scoring_selects_non_overlapping_words() {
    let strategy = strategy();
    let mut row = [0u8; WIDTH];
    for (offset, &letter) in b"FAV".iter().enumerate() {
        row[offset] = cell(letter, u8::from(offset == 2));
        row[offset + 4] = cell(letter, 2 + u8::from(offset == 2));
    }
    let words = strategy.analyze_row(&row).expect("valid row");
    assert_eq!(
        words
            .iter()
            .map(|word| word.text.as_str())
            .collect::<Vec<_>>(),
        ["FAV", "FAV"]
    );
    assert_eq!(words.iter().map(|word| word.score).sum::<i32>(), 162);
}

#[test]
fn the_better_of_two_overlapping_words_is_kept() {
    let strategy = strategy();
    let mut row = [0u8; WIDTH];
    for (offset, &letter) in b"FAVER".iter().enumerate() {
        row[offset] = cell(letter, (offset % 2) as u8);
    }
    let words = strategy.analyze_row(&row).expect("valid row");
    assert_eq!(words.len(), 1);
    assert_eq!(words[0].text, "FAVER");
    assert_eq!((words[0].start, words[0].end), (0, 4));
    // (4 + 1 + 4 + 1 + 1) * 5 * 5
    assert_eq!(words[0].score, 275);
}

#[test]
fn placements_clear_and_collapse_a_completed_line() {
    let strategy = strategy();
    let mut board = [0u8; WIDTH * HEIGHT];
    for col in 0..6 {
        board[(HEIGHT - 1) * WIDTH + col] = cell(b'A', 1);
    }
    let candidates = strategy.root_candidates(&board, 0, &[piece(0, b"FAVE")], 160, 160);
    let clearing = candidates
        .iter()
        .find(|candidate| candidate.immediate_lines == 1)
        .expect("horizontal I placement should complete the row");
    assert!(clearing.board.iter().all(|&value| value == 0));
}

#[test]
fn board_evaluation_counts_holes_and_rejects_invalid_cells() {
    let strategy = strategy();
    let mut board = [0u8; WIDTH * HEIGHT];
    board[(HEIGHT - 2) * WIDTH] = cell(b'A', 0);
    let evaluation = strategy.evaluate(&board).expect("valid board");
    assert_eq!(evaluation.heights[0], 2);
    assert_eq!(evaluation.holes, 1);
    assert_eq!(evaluation.buried_depth, 1);
    assert_eq!(evaluation.aggregate_height, 2);
    assert_eq!(evaluation.maximum_height, 2);
    assert!(units(evaluation.heuristic_value) < 0.0);

    board[0] = 31 | (1 << 5);
    assert!(strategy.evaluate(&board).is_none());
    assert!(!strategy.can_spawn(&board, 0));
}

#[test]
fn native_search_is_deterministic_and_returns_unique_roots() {
    let strategy = strategy();
    let board = [0u8; WIDTH * HEIGHT];
    let sequence = sequence();
    let first = strategy
        .find_best_move(&board, 0, &sequence, 24)
        .expect("legal opening move");
    let second = strategy
        .find_best_move(&board, 0, &sequence, 24)
        .expect("repeat opening move");
    assert_eq!(
        (
            first.board,
            first.letter_shift,
            first.rotation,
            first.row,
            first.col
        ),
        (
            second.board,
            second.letter_shift,
            second.rotation,
            second.row,
            second.col
        ),
    );
    assert_eq!(first.depth, 3);
    assert!(first.nodes > 1_000);

    let candidates = strategy.root_candidates(&board, 0, &sequence, 64, 12);
    assert!(!candidates.is_empty());
    assert!(candidates.len() <= 12);
    assert_eq!(
        candidates
            .iter()
            .map(|candidate| candidate.board)
            .collect::<HashSet<_>>()
            .len(),
        candidates.len(),
    );

    let pooled = strategy
        .find_best_move_with_root_candidates(&board, 0, &sequence, 24, 64, 12)
        .expect("pooled search move");
    assert!(
        candidates
            .iter()
            .any(|candidate| candidate.board == pooled.board)
            || pooled.board == first.board
    );
}

#[test]
fn public_native_api_rejects_malformed_inputs() {
    assert!(Strategy::from_kwg_bytes(&[]).is_err());
    assert!(Strategy::from_kwg_bytes(&[0; 9]).is_err());
    let strategy = strategy();
    let mut board = [0u8; WIDTH * HEIGHT];
    assert!(!strategy.is_word(&[]));
    assert!(!strategy.is_word(&[26, 26, 26, 26]));
    assert!(!strategy.can_spawn(&board, 7));
    assert!(strategy.find_best_move(&board, 0, &[], 24).is_none());
    assert!(
        strategy
            .root_candidates(&board, 0, &sequence(), 24, 0)
            .is_empty()
    );
    board[0] = 31 | (1 << 5);
    assert!(
        strategy
            .find_best_move(&board, 0, &sequence(), 24)
            .is_none()
    );
}

#[test]
fn rejects_truncated_models() {
    assert!(RootRankModel::from_bytes(&zero_root_ranker()[..32]).is_err());
    assert!(RootRankModel::from_bytes(&zero_root_ranker()).is_ok());
}

#[test]
fn a_short_word_list_is_refused_with_a_reason() {
    match Strategy::from_kwg_bytes(&[0; 4]) {
        Err(text) => assert_eq!(text, "KWG must contain at least two little-endian u32 nodes"),
        Ok(_) => panic!("four bytes are no word list"),
    }
    assert!(Strategy::from_kwg_bytes(&[0; 8]).is_ok());
    assert!(Strategy::from_kwg_bytes(&[0; 10]).is_err());
}

#[test]
fn words_are_found_by_their_letters() {
    let strategy = strategy();
    assert!(strategy.is_word(&[6, 1, 22]));
    assert!(strategy.is_word(&[6, 1, 22, 5]));
    assert!(!strategy.is_word(&[6, 1]));
    assert!(!strategy.is_word(&[6]));
    assert!(strategy.is_word(&[1, 1]));
    assert!(!strategy.is_word(&[6, 1, 22, 5, 18, 1]));
}

#[test]
fn model_faults_are_told_apart() {
    let full = model_bytes(b"KVFM1\0\0\0", 15_544, 7);
    assert!(FragmentModelPair::from_bytes(&full, &full).is_ok());
    let mut wrong = full.clone();
    wrong[20] = 9;
    match FragmentModelPair::from_bytes(&full, &wrong) {
        Err(text) => assert_eq!(text, "fragment model architecture is unsupported"),
        Ok(_) => panic!("nine tensors"),
    }
    let mut infinite = full.clone();
    infinite[32 + 4 * 100..36 + 4 * 100].copy_from_slice(&f32::INFINITY.to_le_bytes());
    match FragmentModelPair::from_bytes(&infinite, &full) {
        Err(text) => assert_eq!(text, "fragment model contains a non-finite weight"),
        Ok(_) => panic!("an infinite weight"),
    }
    match RootRankModel::from_bytes(&full) {
        Err(text) => assert_eq!(text, "root ranker has an invalid magic or length"),
        Ok(_) => panic!("another model"),
    }
    let mut ranker = zero_root_ranker();
    let end = ranker.len();
    ranker[end - 4..].copy_from_slice(&2.5f32.to_le_bytes());
    let model = RootRankModel::from_bytes(&ranker).expect("finite weights");
    assert_eq!(f32::from_bits(model.network.head_2_bias[3]), 2.5);
    assert_eq!(model.network.row_1_weight.len(), 64 * 145);
    ranker[end - 4..].copy_from_slice(&f32::NAN.to_le_bytes());
    match RootRankModel::from_bytes(&ranker) {
        Err(text) => assert_eq!(text, "root ranker contains a non-finite weight"),
        Ok(_) => panic!("a NaN weight"),
    }
    ranker[16] = 7;
    match RootRankModel::from_bytes(&ranker) {
        Err(text) => assert_eq!(text, "root ranker architecture is unsupported"),
        Ok(_) => panic!("seven outputs"),
    }
}

/// The heuristic value of a board, worked out in floating point.
fn float_value(strategy: &Strategy, board: &[u8; 220]) -> (f64, f64) {
    let evaluation = strategy.evaluate(board).expect("valid board");
    let mut potential = 0f64;
    for row in 0..HEIGHT {
        let cells: [u8; WIDTH] = board[row * WIDTH..(row + 1) * WIDTH].try_into().expect("row");
        let fullness = cells.iter().filter(|&&cell| cell != 0).count() as f64 / WIDTH as f64;
        if fullness < 0.2 || fullness == 1.0 {
            continue;
        }
        for word in strategy.analyze_row(&cells).expect("valid row") {
            potential += word.score as f64 * (0.18 + 1.12 * fullness.powi(4));
        }
    }
    let value = potential
        - evaluation.holes as f64 * 285.0
        - evaluation.buried_depth as f64 * 34.0
        - evaluation.aggregate_height as f64 * 4.5
        - (evaluation.maximum_height * evaluation.maximum_height) as f64 * 1.7
        - evaluation.bumpiness as f64 * 8.0
        - evaluation.wells as f64 * 3.0;
    (potential, value)
}

#[test]
fn evaluations_equal_floating_point_arithmetic_bit_for_bit() {
    let strategy = strategy();
    let mut state = 88_172_645u32;
    let mut potentials = 0;
    for _ in 0..300 {
        let mut board = [0u8; 220];
        for index in 0..220 {
            state ^= state << 13;
            state ^= state >> 17;
            state ^= state << 5;
            let row = index / 10;
            if row > 10 && state % 16 < 11 {
                let letters = b"FAVERATIONSLTGMW";
                board[index] = cell(letters[(state >> 8) as usize % 16], (state >> 16) as u8 % 7);
            }
        }
        for (row, word) in [(15usize, b"RATES"), (17, b"FAVER")] {
            for (offset, &letter) in word.iter().enumerate() {
                board[row * 10 + 2 + offset] = cell(letter, (offset % 3) as u8);
            }
            board[row * 10 + 9] = 0;
        }
        let evaluation = strategy.evaluate(&board).expect("valid board");
        let (potential, value) = float_value(&strategy, &board);
        assert_eq!(units(evaluation.word_potential).to_bits(), potential.to_bits());
        assert_eq!(units(evaluation.heuristic_value).to_bits(), value.to_bits());
        potentials += usize::from(potential > 0.0);
    }
    assert!(potentials > 200);
}

#[test]
fn one_ply_moves_are_the_best_by_the_heuristic() {
    let strategy = strategy();
    let mut board = [0u8; 220];
    for col in 0..7 {
        board[210 + col] = cell(b'T', (col % 3) as u8);
    }
    let pieces = [piece(5, b"LION")];
    let outcome = strategy
        .find_best_move(&board, 10, &pieces, 160)
        .expect("a move");
    let candidates = strategy.root_candidates(&board, 10, &pieces, 160, 160);
    let mut best = f64::NEG_INFINITY;
    for candidate in &candidates {
        let (_, value) = float_value(&strategy, &candidate.board);
        let expected = candidate.immediate_score as f64 * 1.25
            - candidate.immediate_lines as f64 * 90.0
            + value;
        assert_eq!(units(candidate.heuristic_value).to_bits(), expected.to_bits());
        assert_eq!(candidate.projected_score, candidate.immediate_score);
        best = best.max(expected);
    }
    assert_eq!(outcome.board, candidates[0].board);
    assert_eq!(outcome.evaluation, (best + 0.5).floor() as i32);
    assert_eq!(outcome.depth, 1);
    assert_eq!(outcome.nodes, 136);
}

#[test]
fn a_clearing_move_banks_its_words() {
    let strategy = strategy();
    let mut board = [0u8; 220];
    for (col, &letter) in b"RATESO".iter().enumerate() {
        board[210 + col] = cell(letter, (col % 2) as u8);
    }
    let outcome = strategy
        .root_candidates(&board, 0, &[piece(0, b"LION")], 160, 160)
        .into_iter()
        .find(|candidate| candidate.immediate_lines == 1 && candidate.letter_shift == 0)
        .expect("a completed line");
    // RATES is worth (1 + 1 + 1 + 1 + 1) * 25 and LION lies within one piece.
    assert_eq!(outcome.immediate_score, 125);
    assert_eq!(outcome.immediate_words.len(), 1);
    assert_eq!(outcome.immediate_words[0].text, "RATES");
    assert_eq!((outcome.row, outcome.col, outcome.rotation), (20, 6, 0));
}

#[test]
fn searches_stop_at_forty_lines() {
    let strategy = strategy();
    let board = [0u8; 220];
    let outcome = strategy
        .find_best_move(&board, 40, &sequence(), 24)
        .expect("a move");
    assert_eq!(outcome.depth, 1);
    assert_eq!(outcome.projected_lines, 0);
}

#[test]
fn a_full_board_leaves_no_move() {
    let strategy = strategy();
    let board = [cell(b'A', 0); 220];
    assert!(strategy.find_best_move(&board, 0, &sequence(), 24).is_none());
    assert!(strategy.root_candidates(&board, 0, &sequence(), 24, 12).is_empty());
    assert!(
        strategy
            .find_best_move_with_root_candidates(&board, 0, &sequence(), 24, 64, 12)
            .is_none()
    );
    assert!(!strategy.can_spawn(&board, 0));
    assert!(strategy.can_spawn(&[0u8; 220], 6));
}

/// What a learned evaluator that adds nothing gives for a leaf.
fn nothing(_leaf: &PackedBoard, _lines: u8) -> u64 {
    (-0.0f64).to_bits()
}

fn rounded(value: f64) -> i32 {
    (value + 0.5).floor() as i32
}

fn fragment<'a>(leaf_visible: &'a [Piece], candidates: usize) -> FragmentRerank<'a> {
    FragmentRerank {
        leaf_visible,
        lexicon: 0,
        weight: 0.25f64.to_bits(),
        candidates,
    }
}

#[test]
fn learned_evaluators_run_on_native_search_candidates() {
    let strategy = strategy();
    let board: PackedBoard = [0; WIDTH * HEIGHT];
    let visible = visible();
    let fragment = strategy
        .find_best_move_with_fragment_model(
            &board,
            0,
            &sequence(),
            12,
            FragmentRerank {
                leaf_visible: &visible,
                lexicon: 0,
                weight: 0.25f64.to_bits(),
                candidates: 6,
            },
            |leaf: &PackedBoard, lines: u8| {
                let filled = leaf.iter().filter(|&&cell| cell != 0).count();
                (filled as f64 - f64::from(lines)).to_bits()
            },
        )
        .expect("fragment-reranked move");
    assert_eq!(fragment.depth, 3);
    assert!(fragment.evaluation > i32::MIN);

    let ranked = strategy
        .find_best_move_with_root_ranker(
            &board,
            0,
            &sequence(),
            12,
            RootRerank {
                visible_after_root: &visible,
                lexicon: 0,
                candidate_beam_width: 24,
                candidates: 6,
                correction_weight: 1.0f64.to_bits(),
            },
            nothing,
        )
        .expect("root-reranked move");
    assert_eq!(ranked.depth, 3);
    let pooled = strategy
        .find_best_move_with_root_candidates(&board, 0, &sequence(), 12, 24, 6)
        .expect("a pooled move");
    assert_eq!(format!("{ranked:?}"), format!("{pooled:?}"));
}

#[test]
fn a_weight_of_zero_gives_the_plain_move() {
    let strategy = strategy();
    let board = [0u8; 220];
    let visible = visible();
    let plain = strategy
        .find_best_move(&board, 7, &sequence(), 12)
        .expect("a move");
    let pooled = strategy
        .find_best_move_with_root_candidates(&board, 7, &sequence(), 12, 24, 6)
        .expect("a pooled move");
    for weight in [0.0f64, -0.0] {
        for candidates in [0, 1, 6, 500] {
            let mut reranker = fragment(&visible, candidates);
            reranker.weight = weight.to_bits();
            let same = strategy
                .find_best_move_with_fragment_model(
                    &board,
                    7,
                    &sequence(),
                    12,
                    reranker,
                    |leaf: &PackedBoard, lines: u8| {
                        let filled = leaf.iter().filter(|&&cell| cell != 0).count();
                        (filled as f64 * -1e300 + f64::from(lines)).to_bits()
                    },
                )
                .expect("a move");
            assert_eq!(format!("{same:?}"), format!("{plain:?}"));
        }
        let ranked = strategy
            .find_best_move_with_root_ranker(
                &board,
                7,
                &sequence(),
                12,
                RootRerank {
                    visible_after_root: &visible,
                    lexicon: 0,
                    candidate_beam_width: 24,
                    candidates: 6,
                    correction_weight: weight.to_bits(),
                },
                |_: &PackedBoard, lines: u8| (f64::from(lines) - 3.5).to_bits(),
            )
            .expect("a move");
        assert_eq!(format!("{ranked:?}"), format!("{pooled:?}"));
    }
    for candidates in [0, 1, 6, 500] {
        let same = strategy
            .find_best_move_with_fragment_model(
                &board,
                7,
                &sequence(),
                12,
                fragment(&visible, candidates),
                nothing,
            )
            .expect("a move");
        assert_eq!(format!("{same:?}"), format!("{plain:?}"));
    }
}

/// Numbers of all kinds and sizes, and numbers that are hard to round.
fn numbers() -> Vec<f64> {
    let mut found = vec![
        0.0,
        -0.0,
        0.5,
        -0.5,
        0.49999999999999994,
        -0.49999999999999994,
        -0.5000000000000001,
        1.0,
        -1.0,
        1.5,
        -1.5,
        100.0,
        -2.5,
        2147483646.5,
        2147483647.5,
        -2147483648.5,
        -2147483649.0,
        4294967296.0,
        1e300,
        -1e300,
        f64::MAX,
        f64::MIN,
        f64::MIN_POSITIVE,
        -f64::MIN_POSITIVE,
        f64::from_bits(1),
        -f64::from_bits(1),
        f64::from_bits(0x000f_ffff_ffff_ffff),
        f64::EPSILON,
        1.0 + f64::EPSILON,
        1.0 - f64::EPSILON / 2.0,
        9007199254740992.0,
        9007199254740993.0,
        4503599627370495.5,
        f64::INFINITY,
        f64::NEG_INFINITY,
        f64::NAN,
    ];
    let mut state = 0x9e37_79b9_7f4a_7c15u64;
    for index in 0..300u64 {
        state ^= state << 13;
        state ^= state >> 7;
        state ^= state << 17;
        found.push(f64::from_bits(state));
        let near = (state & 0x800f_ffff_ffff_ffff) | ((1003 + index % 40) << 52);
        found.push(f64::from_bits(near));
    }
    found
}

fn same(left: f64, right: f64) -> bool {
    left.to_bits() == right.to_bits() || (left.is_nan() && right.is_nan())
}

#[test]
fn patterns_are_added_and_multiplied_as_the_hardware_does() {
    let numbers = numbers();
    for &left in &numbers {
        assert_eq!(round_half_up(left.to_bits()), rounded(left), "{left:e}");
        assert_eq!(whole_of(left.to_bits()), left.floor() as i32, "{left:e}");
        for &right in &numbers {
            let sum = f64::from_bits(add_numbers(left.to_bits(), right.to_bits()));
            assert!(same(sum, left + right), "{left:e} + {right:e}");
            let product = f64::from_bits(multiply(left.to_bits(), right.to_bits()));
            assert!(same(product, left * right), "{left:e} * {right:e}");
        }
    }
}

#[test]
fn units_have_the_bit_patterns_of_their_numbers() {
    let cases = [
        0,
        1,
        -1,
        3,
        ONE,
        -ONE,
        ONE / 2,
        ONE * 1_000 + 7,
        (1 << 53) - 1,
        (1 << 53) + 1,
        -(1 << 53),
        (1 << 100) - (1 << 47),
        -(1 << 115) + (1 << 60),
    ];
    for units_of in cases {
        assert_eq!(f64::from_bits(pattern_of(units_of)), units(units_of));
        assert_eq!(pattern_of(units_of), units(units_of).to_bits());
    }
    let strategy = strategy();
    let leaves = strategy
        .search_leaves(&[0u8; 220], 0, &sequence(), 160)
        .expect("leaves");
    for state in &leaves.states {
        let value = units(state.value);
        assert_eq!(pattern_of(state.value), value.to_bits());
        assert_eq!(js_round(state.value), rounded(value));
        assert_eq!(round_half_up(value.to_bits()), rounded(value));
        let added = weigh(state.value, 0.1f64.to_bits(), (-3.7f64).to_bits());
        assert_eq!(added, (value + 0.1 * -3.7).to_bits());
    }
}

#[test]
fn one_candidate_changes_the_evaluation_only() {
    let strategy = strategy();
    let board = [0u8; 220];
    let visible = visible();
    let plain = strategy
        .find_best_move(&board, 0, &sequence(), 12)
        .expect("a move");
    let value = units(strategy.search_leaves(&board, 0, &sequence(), 12).expect("leaves").states[0].value);
    for residual in [-3.5f64, 1e9, f64::NAN, f64::INFINITY, -1e300] {
        let mut other = strategy
            .find_best_move_with_fragment_model(
                &board,
                0,
                &sequence(),
                12,
                fragment(&visible, 1),
                |_: &PackedBoard, _: u8| residual.to_bits(),
            )
            .expect("a move");
        assert_eq!(other.evaluation, rounded(value + residual * 0.25));
        other.evaluation = plain.evaluation;
        assert_eq!(format!("{other:?}"), format!("{plain:?}"));
    }
}

#[test]
fn reranking_picks_the_first_greatest_value() {
    let strategy = strategy();
    let board = [0u8; 220];
    let visible = visible();
    let leaves = strategy
        .search_leaves(&board, 3, &sequence(), 12)
        .expect("leaves");
    assert_eq!(leaves.rerank_count(6, 12), 6);
    assert_eq!(leaves.rerank_count(0, 12), 1);
    assert_eq!(leaves.rerank_count(500, 12), 12);
    let asked = std::cell::RefCell::new(Vec::new());
    let residuals = [-5.0e12f64, -0.0, 0.0, 7.25e12, 7.25e12, -9.0e12];
    let chosen = strategy
        .find_best_move_with_fragment_model(
            &board,
            3,
            &sequence(),
            12,
            fragment(&visible, 6),
            |leaf: &PackedBoard, lines: u8| {
                let index = asked.borrow().len();
                asked.borrow_mut().push((*leaf, lines));
                residuals[index].to_bits()
            },
        )
        .expect("a move");
    let asked = asked.into_inner();
    assert_eq!(asked.len(), 6);
    for (question, state) in asked.iter().zip(&leaves.states) {
        assert_eq!(question.0, state.board);
        assert_eq!(u16::from(question.1), state.lines + 3);
    }
    let values: Vec<f64> = leaves.states[..6]
        .iter()
        .zip(residuals)
        .map(|(state, residual)| units(state.value) + residual * 0.25)
        .collect();
    let mut best = 0;
    for (index, value) in values.iter().enumerate() {
        if *value > values[best] {
            best = index;
        }
    }
    assert!(best >= 3);
    assert_eq!(chosen.evaluation, rounded(values[best]));
    assert_eq!(
        chosen.board,
        leaves.roots[leaves.states[best].root_index as usize].board
    );
    assert_eq!(best_of(&[1.0f64.to_bits(), f64::INFINITY.to_bits()]), 1);
    assert_eq!(best_of(&[f64::NEG_INFINITY.to_bits(), (-1.0f64).to_bits()]), 1);
    assert_eq!(best_of(&[2.0f64.to_bits(), 2.0f64.to_bits()]), 0);
    assert_eq!(best_of(&[f64::NAN.to_bits()]), 0);
}

#[test]
fn values_that_cannot_be_ordered_leave_the_first_leaf() {
    assert!(can_be_ordered(&[f64::NAN.to_bits()]));
    assert!(can_be_ordered(&[1.0f64.to_bits(), f64::INFINITY.to_bits()]));
    assert!(!can_be_ordered(&[1.0f64.to_bits(), f64::NAN.to_bits()]));
    assert!(!can_be_ordered(&[(-f64::NAN).to_bits(), 1.0f64.to_bits()]));
    assert!(check_finite((-0.0f64).to_bits()) && check_finite(f64::MAX.to_bits()));
    assert!(!check_finite(f64::NEG_INFINITY.to_bits()) && !check_finite(f64::NAN.to_bits()));
    let strategy = strategy();
    let board = [0u8; 220];
    let visible = visible();
    let plain = strategy
        .find_best_move(&board, 0, &sequence(), 12)
        .expect("a move");
    let count = std::cell::Cell::new(0);
    let chosen = strategy
        .find_best_move_with_fragment_model(
            &board,
            0,
            &sequence(),
            12,
            fragment(&visible, 6),
            |_: &PackedBoard, _: u8| {
                count.set(count.get() + 1);
                if count.get() == 3 {
                    f64::NAN.to_bits()
                } else {
                    (f64::from(count.get()) * 1e9).to_bits()
                }
            },
        )
        .expect("a move");
    assert_eq!(count.get(), 6);
    assert_eq!(chosen.board, plain.board);
}

#[test]
fn reranking_needs_five_pieces_a_lexicon_and_a_finite_weight() {
    let strategy = strategy();
    let board = [0u8; 220];
    let five = visible();
    let found = |board: &PackedBoard, sequence: &[Piece], reranker: FragmentRerank<'_>| {
        strategy
            .find_best_move_with_fragment_model(board, 0, sequence, 12, reranker, nothing)
            .is_some()
    };
    assert!(found(&board, &sequence(), fragment(&five, 6)));
    assert!(!found(&board, &[], fragment(&five, 6)));
    assert!(!found(&[31 | (1 << 5); 220], &sequence(), fragment(&five, 6)));
    assert!(!found(&board, &sequence(), fragment(&five[..4], 6)));
    let mut wrong = five;
    wrong[4].kind = 7;
    assert!(!found(&board, &sequence(), fragment(&wrong, 6)));
    let mut other = fragment(&five, 6);
    other.lexicon = 2;
    assert!(!found(&board, &sequence(), other));
    for weight in [f64::NAN, f64::INFINITY, f64::NEG_INFINITY] {
        let mut other = fragment(&five, 6);
        other.weight = weight.to_bits();
        assert!(!found(&board, &sequence(), other));
        assert!(strategy
            .find_best_move_with_root_ranker(
                &board,
                0,
                &sequence(),
                12,
                RootRerank {
                    visible_after_root: &five,
                    lexicon: 1,
                    candidate_beam_width: 24,
                    candidates: 6,
                    correction_weight: weight.to_bits(),
                },
                nothing,
            )
            .is_none());
    }
    assert!(can_rerank(&five, 1));
    assert!(!can_rerank(&five[..4], 1));
    assert!(!can_rerank(&five, 2));
}

#[test]
fn pools_keep_the_usual_move_as_their_first_entry() {
    let strategy = strategy();
    let board = [0u8; 220];
    let five = visible();
    let pool = strategy
        .root_pool(&board, 0, &sequence(), 12, 24, 6)
        .expect("a pool");
    assert!(pool.len() >= 2 && pool.len() <= 7);
    let usual = strategy
        .find_best_move(&board, 0, &sequence(), 12)
        .expect("a move");
    assert_eq!(pool.board(0), usual.board);
    assert_eq!(pool.lines(0), usual.immediate_lines);
    let wanted = pool.board(1);
    let count = pool.len();
    let ranked = |correction: f64| {
        strategy
            .find_best_move_with_root_ranker(
                &board,
                0,
                &sequence(),
                12,
                RootRerank {
                    visible_after_root: &five,
                    lexicon: 1,
                    candidate_beam_width: 24,
                    candidates: 6,
                    correction_weight: 0.5f64.to_bits(),
                },
                |after: &PackedBoard, _: u8| {
                    if *after == wanted {
                        correction.to_bits()
                    } else {
                        (-1.0e7f64).to_bits()
                    }
                },
            )
            .expect("a move")
    };
    assert_eq!(ranked(3.0).board, wanted);
    let best = (0..count)
        .filter(|&entry| pool.board(entry) == wanted)
        .map(|entry| units(pool.value(entry)))
        .fold(f64::MIN, f64::max);
    assert_eq!(ranked(3.0).evaluation, rounded(best + 3.0 * 100.0 * 0.5));
    assert_eq!(ranked(f64::NAN).board, usual.board);
    assert!(pool.value(1) >= pool.value(count - 1));
}

#[test]
fn one_piece_goes_where_its_board_is_worth_most() {
    let strategy = strategy();
    let board = [0u8; 220];
    let one = [piece(0, b"FAVE")];
    let leaves = strategy.search_leaves(&board, 0, &one, 160).expect("leaves");
    let best = strategy.find_best_move(&board, 0, &one, 12).expect("a move");
    assert!(leaves.states.iter().all(|state| state.value <= leaves.states[0].value));
    assert_eq!(best.board, leaves.states[0].board);
    assert_eq!(best.depth, 1);
}

