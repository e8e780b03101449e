use kvadrat_strategy::abi::{
    answer_fragment_request, kv_analyze_row, kv_find_best_move, kv_is_word, read_fragment_request,
    read_search_request, HandleTable,
};
use kvadrat_strategy::archive::{pack_records, read_lines, unpack_records};
use kvadrat_strategy::bags::parse_bags;
use kvadrat_strategy::clock::{rfc3339, stamp};
use kvadrat_strategy::digest::{fingerprint, to_hex};
use kvadrat_strategy::features::{
    boundaries, first_filled, open_cells, queue_counts, seen_letters, InputMode,
};
use kvadrat_strategy::fragments::{
    encode_record, lexicon_id, open_split, record_features, record_targets, split_indices,
    split_record, DataFault, FeatureFault, LexiconFilter, RecordFault, ShardOutput, SourceDelta,
    SourceRecord, SplitCounter, SplitStats,
};
use kvadrat_strategy::models::{
    export_fragment_model, has_dimensions, FragmentModel, FRAGMENT_WEIGHTS,
};
use kvadrat_strategy::native::{Piece, Strategy};
use kvadrat_strategy::options::{
    parse_depths, parse_input_mode, parse_lexicon_filter, parse_number, parse_pairs,
    self_play_numbers, split_commas, trial_options, two_paths, ArgumentFault, FractionStatus,
    OptionFault, PathFault, SelfPlayContext,
};
use kvadrat_strategy::random::split_index;
use kvadrat_strategy::records::{board_view, piece_view, BoardView, PieceView};
use kvadrat_strategy::rerank::leaf_lines;
use kvadrat_strategy::source::{read_piece, read_rows, SourceFault};
use kvadrat_strategy::text::{parse_letters, push_signed};

fn cell(letter: u8, piece: u8) -> u8 {
    (letter - b'A' + 1) | ((piece + 1) << 5)
}

fn piece(kind: u8, letters: &[u8; 4]) -> Piece {
    Piece {
        kind,
        letters: letters.map(|letter| letter - b'A' + 1),
    }
}

/// A word graph with the single word FAV.
fn fav() -> Vec<u32> {
    let end = 0x400000;
    vec![
        2 | end,
        end,
        (6 << 24) | 3 | end,
        (1 << 24) | 4 | end,
        (22 << 24) | 0x800000 | end,
    ]
}

fn texts(values: &[&str]) -> Vec<String> {
    values.iter().map(|value| value.to_string()).collect()
}

#[test]
fn calls_answer_with_bytes() {
    let lexicon = fav();
    assert_eq!(kv_is_word(&lexicon, &[6, 1, 22]), 1);
    assert_eq!(kv_is_word(&lexicon, &[6, 1]), 0);
    assert_eq!(kv_is_word(&lexicon[..1], &[6, 1, 22]), 0);
    assert_eq!(kv_is_word(&lexicon, &[]), 0);

    let mut row = [0u8; 10];
    row[3] = cell(b'F', 0);
    row[4] = cell(b'A', 0);
    row[5] = cell(b'V', 1);
    let mut output = [0xeeu8; 32];
    assert_eq!(kv_analyze_row(&lexicon, &row, &mut output), 11);
    assert_eq!(output[..12], [1, 3, 5, 81, 0, 0, 0, 3, 6, 1, 22, 0xee]);
    let mut small = [0xeeu8; 6];
    assert_eq!(kv_analyze_row(&lexicon, &row, &mut small), 0);
    assert_eq!(kv_analyze_row(&lexicon, &row[..9], &mut output), 0);
    assert_eq!(kv_analyze_row(&lexicon, &row, &mut []), 0);
    row[0] = 5;
    assert_eq!(kv_analyze_row(&lexicon, &row, &mut output), 0);
}

fn request(version: u8, depth: u8, pieces: &[Piece]) -> Vec<u8> {
    let mut bytes = vec![version, depth, 12, 0, depth, 0];
    bytes.extend([0u8; 220]);
    for piece in pieces {
        bytes.push(piece.kind);
        bytes.extend(piece.letters);
    }
    bytes
}

#[test]
fn a_search_request_is_answered_like_a_search() {
    let lexicon = fav();
    let strategy = Strategy::from_kwg_bytes(
        &lexicon.iter().flat_map(|node| node.to_le_bytes()).collect::<Vec<u8>>(),
    )
    .expect("word graph");
    let pieces = [piece(0, b"FAVE"), piece(3, b"RATE")];
    let input = request(1, 2, &pieces);
    let mut output = [0u8; 64];
    let count = kv_find_best_move(&lexicon, &input, &mut output);
    assert_eq!(count, 28);
    let outcome = strategy
        .find_best_move(&[0; 220], 0, &pieces, 12)
        .expect("a move");
    assert_eq!(output[0], 1);
    assert_eq!(output[1], outcome.letter_shift);
    assert_eq!(output[2], outcome.rotation);
    assert_eq!(output[3] as i8, outcome.row);
    assert_eq!(output[4] as i8, outcome.col);
    assert_eq!(output[5], outcome.immediate_lines);
    assert_eq!(output[6], outcome.depth);
    assert_eq!(output[7..10], [0, 0, 0]);
    assert_eq!(output[18..20], outcome.projected_lines.to_le_bytes());
    assert_eq!(output[20..24], outcome.nodes.to_le_bytes());
    assert_eq!(output[24..28], outcome.evaluation.to_le_bytes());

    assert_eq!(kv_find_best_move(&lexicon, &input, &mut output[..27]), 0);
    assert_eq!(kv_find_best_move(&lexicon, &input, &mut []), 0);
    assert_eq!(kv_find_best_move(&lexicon[..1], &input, &mut output), 0);
    assert_eq!(kv_find_best_move(&lexicon, &input[..235], &mut output), 0);
    let mut wrong = input.clone();
    wrong[226] = 7;
    assert_eq!(kv_find_best_move(&lexicon, &wrong, &mut output), 0);
    let mut wrong = input.clone();
    wrong[227] = 0;
    assert!(read_search_request(&wrong).is_none());
    let mut wrong = input.clone();
    wrong[4] = 1;
    assert!(read_search_request(&wrong).is_none());
    let mut wrong = input.clone();
    wrong[6] = 9;
    assert!(read_search_request(&wrong).is_none());
    let mut wide = input;
    wide[2] = 255;
    assert_eq!(read_search_request(&wide).expect("a request").width, 160);
}

#[test]
fn fragment_requests_hold_eight_pieces() {
    let pieces: Vec<Piece> = (0..8).map(|index| piece(index % 7, b"LION")).collect();
    let mut input = request(2, 3, &pieces);
    input[5] = 1;
    input[3] = 9;
    let found = read_fragment_request(&input).expect("a request");
    assert_eq!(found.sequence.len(), 3);
    assert_eq!(found.leaf_visible.len(), 5);
    assert_eq!(found.leaf_visible[0].kind, 3);
    assert_eq!((found.lexicon, found.current_lines, found.width), (1, 9, 12));
    let lexicon = fav();
    let mut output = [0u8; 64];
    let raised = |_: &[u8; 220], lines: u8| {
        assert!(lines >= 9);
        4.0e15f64.to_bits()
    };
    assert_eq!(answer_fragment_request(&lexicon, &found, &mut output, raised), 28);
    assert_eq!(output[24..28], i32::MAX.to_le_bytes());
    assert_eq!(answer_fragment_request(&lexicon, &found, &mut [], raised), 0);
    assert_eq!(answer_fragment_request(&lexicon[..1], &found, &mut output, raised), 0);
    let unchanged = |_: &[u8; 220], _: u8| 0u64;
    let mut plain_input = request(1, 3, &pieces[..3]);
    plain_input[3] = 9;
    let mut plain = [0u8; 64];
    assert_eq!(answer_fragment_request(&lexicon, &found, &mut output, unchanged), 28);
    assert_eq!(kv_find_best_move(&lexicon, &plain_input, &mut plain), 28);
    assert_eq!(output, plain);
    input[5] = 2;
    assert!(read_fragment_request(&input).is_none());
    assert_eq!(leaf_lines(200, 100), 255);
    assert_eq!(leaf_lines(20, 4), 24);
    assert_eq!(leaf_lines(255, 65_535), 255);
}

#[test]
fn handles_are_given_out_again() {
    let mut table = HandleTable::new();
    assert_eq!(table.insert("one"), 1);
    assert_eq!(table.insert("two"), 2);
    table.free(1);
    assert!(table.get(1).is_none());
    assert_eq!(table.get(2), Some(&"two"));
    assert_eq!(table.insert("three"), 1);
    assert_eq!(table.get(1), Some(&"three"));
    table.free(0);
    table.free(99);
    assert!(table.get(0).is_none());
    assert!(table.get(3).is_none());
}

#[test]
fn exported_models_read_back() {
    let weights: Vec<u32> = (0..FRAGMENT_WEIGHTS as u32).collect();
    let bytes = export_fragment_model(&weights);
    assert_eq!(&bytes[..8], b"KVFM1\0\0\0");
    assert_eq!(bytes.len(), 32 + 4 * FRAGMENT_WEIGHTS);
    let model = FragmentModel::from_bytes(&bytes).expect("finite weights");
    assert_eq!(model.network.letter_embedding[5], 5);
    assert_eq!(model.network.boundary_embedding[0], 216);
    assert_eq!(model.network.head_2_bias.last(), Some(&15_543));
    assert!(has_dimensions(0, &[27, 8]));
    assert!(has_dimensions(3, &[64]));
    assert!(!has_dimensions(3, &[64, 0]));
    assert!(!has_dimensions(8, &[64, 7]));
}

fn delta(score: u32) -> SourceDelta {
    SourceDelta {
        score,
        lines: 2,
        words: 3,
        word_length: 14,
    }
}

fn record(seed: u32) -> SourceRecord {
    let mut board = [0u8; 220];
    board[219] = cell(b'Q', 4);
    board[210] = cell(b'A', 0);
    SourceRecord {
        lexicon: "NWL23".to_string(),
        seed,
        depth: 3,
        board: board_view(&board),
        active: piece_view(piece(6, b"WORD")),
        next: vec![
            piece_view(piece(0, b"STAR")),
            piece_view(piece(1, b"EONS")),
            piece_view(piece(2, b"TILE")),
            piece_view(piece(3, b"GAME")),
        ],
        lines: 17,
        four: delta(40),
        eight: delta(81),
        sixteen: delta(70_000),
    }
}

#[test]
fn records_are_packed_field_by_field() {
    let bytes = encode_record(&record(0x0102_0304)).expect("a valid record");
    assert_eq!(bytes.len(), 272);
    assert_eq!(bytes[219], cell(b'Q', 4));
    assert_eq!(bytes[220..226], [6, 23, 15, 18, 4, 0]);
    assert_eq!(bytes[245..248], [17, 1, 3]);
    assert_eq!(bytes[248..252], [4, 3, 2, 1]);
    let targets = record_targets(&bytes);
    assert_eq!((targets.score_4, targets.score_8, targets.score_16), (40, 81, 70_000));
    assert_eq!((targets.words_8, targets.lines_8, targets.word_length_8), (3, 2, 14));
    assert_eq!(bytes[270..], [0, 0]);
}

#[test]
fn faulty_records_are_told_apart() {
    let mut short = record(1);
    short.next.pop();
    assert_eq!(encode_record(&short), Err(RecordFault::Dimensions));
    let mut narrow = record(1);
    narrow.board.letters[4] = "...".to_string();
    assert_eq!(encode_record(&narrow), Err(RecordFault::Board(SourceFault::RowWidth)));
    let mut colored = record(1);
    colored.board.pieces[0] = "I.........".to_string();
    assert_eq!(encode_record(&colored), Err(RecordFault::Board(SourceFault::EmptyColor)));
    let mut lower = record(1);
    lower.board.letters[21] = "a........Q".to_string();
    assert_eq!(
        encode_record(&lower),
        Err(RecordFault::Board(SourceFault::Letter(b'a')))
    );
    let mut color = record(1);
    color.board.pieces[21] = "X........S".to_string();
    assert_eq!(
        encode_record(&color),
        Err(RecordFault::Board(SourceFault::Color(b'X')))
    );
    let mut name = record(1);
    name.active.piece = String::new();
    assert_eq!(encode_record(&name), Err(RecordFault::Piece(0, SourceFault::EmptyName)));
    let mut name = record(1);
    name.next[2].piece = "X".to_string();
    assert_eq!(encode_record(&name), Err(RecordFault::Piece(3, SourceFault::Name)));
    let mut letters = record(1);
    letters.next[0].letters = "ABC".to_string();
    assert_eq!(
        encode_record(&letters),
        Err(RecordFault::Piece(1, SourceFault::LetterCount))
    );
    let mut lexicon = record(1);
    lexicon.lexicon = "TWL".to_string();
    assert_eq!(encode_record(&lexicon), Err(RecordFault::Lexicon));
    assert_eq!(lexicon_id(&"CSW24".to_string()), Some(0));
    assert_eq!(lexicon_id(&"NWL23".to_string()), Some(1));
}

#[test]
fn which_fault_is_reported_first_depends_on_the_reader() {
    let letters = texts(&["a........."; 22]);
    let colors = texts(&["X........."; 22]);
    assert_eq!(read_rows(&letters, &colors, false), Err(SourceFault::Letter(b'a')));
    assert_eq!(read_rows(&letters, &colors, true), Err(SourceFault::Color(b'X')));
    let view = PieceView {
        piece: "X".to_string(),
        letters: "abcd".to_string(),
    };
    assert!(read_piece(&view, true).is_err_and(|fault| fault == SourceFault::Name));
    assert!(read_piece(&view, false).is_err_and(|fault| fault == SourceFault::Letter(b'a')));
}

#[test]
fn written_boards_read_back() {
    let mut board = [0u8; 220];
    for (index, cell) in board.iter_mut().enumerate() {
        if index % 3 == 0 {
            *cell = (index % 26 + 1) as u8 | (((index % 7) as u8 + 1) << 5);
        }
    }
    let BoardView { letters, pieces } = board_view(&board);
    assert_eq!(letters.len(), 22);
    assert_eq!(&letters[0][..4], "A..D");
    assert_eq!(&pieces[0][..4], "I..O");
    assert_eq!(read_rows(&letters, &pieces, true), Ok(board));
    let placed = piece(5, b"QUIZ");
    let view = piece_view(placed);
    assert_eq!((view.piece.as_str(), view.letters.as_str()), ("T", "QUIZ"));
    assert!(read_piece(&view, true).is_ok_and(|read| read.letters == placed.letters));
}

#[test]
fn splits_open_and_filter_by_lexicon() {
    let mut output = ShardOutput::new();
    for seed in 0..40u32 {
        let mut made = record(seed);
        if seed % 2 == 0 {
            made.lexicon = "CSW24".to_string();
        }
        output.push_record(&made).expect("a valid record");
    }
    let trained = (0..40u32).filter(|&seed| split_index(seed) == 0).count();
    assert_eq!(output.train.len(), 272 * trained);
    assert_eq!(output.train_stats.records as usize, trained);
    assert_eq!(
        output.train_stats.csw24_records + output.train_stats.nwl23_records,
        output.train_stats.records
    );
    assert_eq!(output.train_stats.score_8, 81 * trained as u64);
    let mut totals = SplitStats::empty();
    totals.merge(output.train_stats);
    totals.merge(output.validation_stats);
    totals.merge(output.test_stats);
    assert_eq!((totals.records, totals.scoring_records, totals.lines_8), (40, 40, 80));

    let mut counter = SplitCounter::new();
    assert!(counter.append(&output.train));
    assert!(!counter.append(&output.train[..100]));
    assert_eq!(counter.records as usize, trained);
    let mut file = counter.header();
    file.extend(&output.train);
    assert_eq!(open_split(&file), Ok(trained));
    let csw = split_indices(&file, trained, LexiconFilter::Csw24, usize::MAX);
    let nwl = split_indices(&file, trained, LexiconFilter::Nwl23, usize::MAX);
    let all = split_indices(&file, trained, LexiconFilter::All, 5);
    assert_eq!(csw.len() + nwl.len(), trained);
    assert_eq!(all, [0, 1, 2, 3, 4]);
    for &index in &csw {
        assert_eq!(split_record(&file, index as usize)[246], 0);
    }
    assert_eq!(open_split(&file[..file.len() - 1]), Err(DataFault::Length));
    assert_eq!(open_split(&file[..20]), Err(DataFault::Magic));
    file[12] = 1;
    assert_eq!(open_split(&file), Err(DataFault::Version(1, 257)));
}

#[test]
fn features_hide_what_a_mode_masks() {
    let bytes = encode_record(&record(9)).expect("a valid record");
    let full = record_features(&bytes, InputMode::Full).expect("features");
    assert_eq!(full.letters[219], 17);
    assert_eq!(full.letters[218], 0);
    assert_eq!(full.boundaries.len(), 198);
    assert_eq!(full.shapes, [6, 0, 1, 2, 3]);
    assert_eq!((full.lines, full.lexicon), (17, 1));
    assert_eq!(full.queue_counts.iter().map(|&count| u32::from(count)).sum::<u32>(), 20);
    assert_eq!(full.queue_counts[4], 3);
    assert!(full.open[0]);
    assert!(!full.open[219]);
    let masked = record_features(&bytes, InputMode::MaskWordInputs).expect("features");
    assert_eq!(masked.letters[219], 1);
    assert_eq!(masked.queue_counts, [0; 26]);
    let board = record_features(&bytes, InputMode::MaskBoardLetters).expect("features");
    assert_eq!((board.letters[219], board.queue_counts), (1, full.queue_counts));
    let mut broken = bytes.clone();
    broken[224] = 27;
    assert!(record_features(&broken, InputMode::Full)
        .is_err_and(|fault| fault == FeatureFault::Letter));
    let mut broken = bytes;
    broken[225] = 7;
    assert!(record_features(&broken, InputMode::Full)
        .is_err_and(|fault| fault == FeatureFault::Shape));
}

#[test]
fn boards_are_seen_from_above() {
    let mut board = [0u8; 220];
    board[200] = cell(b'A', 0);
    board[201] = cell(b'B', 0);
    board[202] = cell(b'C', 1);
    assert_eq!(first_filled(&board, 0), 20);
    assert_eq!(first_filled(&board, 5), 22);
    let open = open_cells(&board);
    assert!(open[190] && !open[200] && !open[210] && open[219]);
    let edges = boundaries(&board);
    assert_eq!(edges[180..184], [1, 2, 0, 0]);
    assert_eq!(seen_letters(&board, false)[200..203], [1, 2, 3]);
    assert_eq!(seen_letters(&board, true)[200..204], [1, 1, 1, 0]);
    let counts = queue_counts(&[piece(0, b"AABC"); 7], false);
    assert_eq!(counts[..4], [10, 5, 5, 0]);
    assert_eq!(queue_counts(&[piece(0, b"AABC")], true), [0; 26]);
}

#[test]
fn shards_are_packed_and_unpacked() {
    let lines: Vec<Vec<u8>> = [&b"{\"a\":1}"[..], b"", b"two words"]
        .iter()
        .map(|line| line.to_vec())
        .collect();
    let packed = pack_records(&lines).expect("a packed shard");
    assert_eq!(packed[..2], [0x1f, 0x8b]);
    assert_eq!(unpack_records(&packed), Some(lines.clone()));
    let mut twice = packed.clone();
    twice.extend(&packed);
    let mut both = lines.clone();
    both.extend(lines);
    assert_eq!(unpack_records(&twice), Some(both));
    assert_eq!(unpack_records(&packed[..packed.len() - 3]), None);
    assert_eq!(unpack_records(b"not gzip at all"), None);
}

#[test]
fn lines_lose_their_ends() {
    let read = |text: &[u8]| -> Vec<String> {
        read_lines(&text.to_vec())
            .into_iter()
            .map(|line| String::from_utf8(line).expect("text"))
            .collect()
    };
    assert_eq!(read(b"a\r\nb\n\nc"), ["a", "b", "", "c"]);
    assert_eq!(read(b"a\r"), ["a\r"]);
    assert!(read(b"").is_empty());
}

#[test]
fn fingerprints_are_lower_case_hexadecimal() {
    assert_eq!(
        fingerprint(b"hello world"),
        "b94d27b9934d3e08a52e52d7da7dabfac484efe37a5380ee9088f7ace2efcde9"
    );
    assert_eq!(to_hex(&[0, 15, 171]), "000fab");
}

#[test]
fn moments_are_written_with_milliseconds() {
    let text = rfc3339(1_700_000_000_123).expect("a moment");
    assert_eq!(text, "2023-11-14T22:13:20.123Z");
    assert_eq!(stamp(&text), "2023-11-14T22-13-20.123Z");
    assert_eq!(rfc3339(0).as_deref(), Some("1970-01-01T00:00:00.000Z"));
    assert_eq!(rfc3339(i64::MAX), None);
}

#[test]
fn bags_need_twenty_eight_pieces() {
    let full = vec!["STAR"; 28].join(" ");
    let long = format!("{} EXTRA more", vec!["WORD"; 30].join("\u{a0}"));
    let short = vec!["GAME"; 27].join(" ");
    let mixed = format!("bad {}\tLION\r", vec!["TILE"; 27].join("  "));
    let text = format!("{full}\n{short}\n{long}\n\n{mixed}\n");
    let bags = parse_bags(&text);
    assert_eq!(bags.len(), 3);
    assert!(bags.iter().all(|bag| bag.len() == 28));
    assert_eq!(bags[0][0], [19, 20, 1, 18]);
    assert_eq!(bags[1][27], [23, 15, 18, 4]);
    assert_eq!(bags[2][27], [12, 9, 15, 14]);
    assert!(parse_bags("").is_empty());
    assert_eq!(parse_letters(b"QUIZ"), Some([17, 21, 9, 26]));
    assert_eq!(parse_letters(b"quiz"), None);
    assert_eq!(parse_letters(b"QUI"), None);
}

#[test]
fn numbers_are_read_strictly() {
    assert_eq!(parse_number("42", 100), Some(42));
    assert_eq!(parse_number("+42", 100), Some(42));
    assert_eq!(parse_number("0042", 100), Some(42));
    assert_eq!(parse_number("101", 100), None);
    assert_eq!(parse_number("", 100), None);
    assert_eq!(parse_number("+", 100), None);
    assert_eq!(parse_number("-1", 100), None);
    assert_eq!(parse_number("4 2", 100), None);
    assert_eq!(parse_number("18446744073709551615", u64::MAX), Some(u64::MAX));
    assert_eq!(parse_number("18446744073709551616", u64::MAX), None);
    assert_eq!(parse_depths("2,3,3,3"), Some(vec![2, 3, 3, 3]));
    assert_eq!(parse_depths("2,,3"), None);
    assert_eq!(split_commas("a,,b"), ["a", "", "b"]);
    let mut text = String::from("n=");
    push_signed(&mut text, -905);
    assert_eq!(text, "n=-905");
}

#[test]
fn options_come_in_pairs() {
    let parsed = parse_pairs(&texts(&["--seed", "1", "--seed", "2"])).expect("pairs");
    assert_eq!(parsed.get("seed").as_deref(), Some("2"));
    assert_eq!(parsed.get("hours"), None);
    assert!(parse_pairs(&texts(&["--seed"])).is_err_and(|fault| fault == ArgumentFault::Odd));
    assert!(
        parse_pairs(&texts(&["-seed", "1"])).is_err_and(|fault| fault == ArgumentFault::Prefix)
    );
    let paths = two_paths(&texts(&["--output", "b", "--input", "a"]), "--input", "--output");
    assert_eq!(paths, Ok((Some("a".to_string()), Some("b".to_string()))));
    assert_eq!(
        two_paths(&texts(&["--other", "b"]), "--input", "--output"),
        Err(PathFault::Unsupported(0))
    );
    assert_eq!(
        two_paths(&texts(&["--input"]), "--input", "--output"),
        Err(PathFault::Odd)
    );
    assert_eq!(
        parse_input_mode(&"mask-word-inputs".to_string()),
        Some(InputMode::MaskWordInputs)
    );
    assert_eq!(parse_input_mode(&"none".to_string()), None);
    assert_eq!(parse_lexicon_filter(&"csw24".to_string()), Some(LexiconFilter::Csw24));
    assert_eq!(parse_lexicon_filter(&"CSW24".to_string()), None);
}

fn fault_text(arguments: &[&str], context: SelfPlayContext) -> String {
    let parsed = parse_pairs(&texts(arguments)).expect("pairs");
    match self_play_numbers(&parsed, context) {
        Ok(_) => "fine".to_string(),
        Err(OptionFault::Unreadable(name)) => format!("unreadable {name}"),
        Err(OptionFault::Rule(text)) => text.to_string(),
    }
}

#[test]
fn self_play_options_keep_their_rules() {
    let fine = SelfPlayContext {
        default_threads: 3,
        hours: FractionStatus::Fine,
        fragment_weight: FractionStatus::Fine,
        root_ranker_weight: FractionStatus::Fine,
    };
    assert_eq!(fault_text(&[], fine), "fine");
    let parsed = parse_pairs(&[]
        .iter()
        .map(|value: &&str| value.to_string())
        .collect::<Vec<String>>())
    .expect("pairs");
    match self_play_numbers(&parsed, fine) {
        Ok(numbers) => {
            assert_eq!(numbers.depths, [2, 3, 3, 3]);
            assert_eq!(numbers.threads, 3);
            assert_eq!(numbers.shard_records, 2_000);
            assert_eq!(numbers.seed, 12_628_309);
            assert_eq!(numbers.max_games, 9_007_199_254_740_991);
            assert_eq!(numbers.beam_width, None);
        }
        Err(_) => panic!("defaults are fine"),
    }
    let cases: [(&[&str], &str); 14] = [
        (
            &["--depths", "2,6"],
            "--depths must contain comma-separated integers from 1 through 5",
        ),
        (&["--depths", "two"], "unreadable depths"),
        (&["--shard-records", "99"], "--shard-records must be at least 100"),
        (&["--threads", "0"], "--threads must be at least 1"),
        (&["--beam-width", "11"], "--beam-width must be from 12 through 160"),
        (
            &["--fragment-full", "x"],
            "--fragment-full and --fragment-context must be supplied together",
        ),
        (
            &["--fragment-candidates", "161"],
            "--fragment-candidates must be from 1 through 160",
        ),
        (
            &["--root-candidate-beam", "161"],
            "--root-candidate-beam must be from 12 through 160",
        ),
        (&["--root-candidates", "0"], "--root-candidates must be from 1 through 160"),
        (
            &[
                "--root-ranker", "r", "--fragment-full", "f", "--fragment-context", "c",
            ],
            "--root-ranker cannot be combined with the fragment model options",
        ),
        (
            &["--root-candidate-beam", "160", "--root-ranker", "r"],
            "--root-candidate-beam cannot be combined with learned model options",
        ),
        (&["--root-ranker", "r"], "--root-ranker currently requires --depths 3"),
        (&["--seed", "4294967296"], "unreadable seed"),
        (
            &["--root-ranker-candidate-beam", "5"],
            "--root-ranker-candidate-beam must be from 12 through 160",
        ),
    ];
    for (arguments, expected) in cases {
        assert_eq!(fault_text(arguments, fine), expected);
    }
    let late = SelfPlayContext {
        hours: FractionStatus::OutOfRange,
        ..fine
    };
    assert_eq!(fault_text(&["--threads", "0"], late), "--hours must be positive and finite");
    let heavy = SelfPlayContext {
        fragment_weight: FractionStatus::Unreadable,
        ..fine
    };
    assert_eq!(fault_text(&[], heavy), "unreadable fragment-weight");
}

#[test]
fn trial_options_keep_their_ranges() {
    let read = |arguments: &[&str]| {
        trial_options(&parse_pairs(&texts(arguments)).expect("pairs"), 2)
    };
    match read(&[]) {
        Ok(options) => {
            assert_eq!((options.positions, options.candidates), (10_000, 12));
            assert_eq!((options.search_depth, options.horizon), (3, 8));
            assert_eq!(options.required_future(), 11);
            assert_eq!((options.threads, options.sample_modulus), (2, 8));
        }
        Err(_) => panic!("defaults are fine"),
    }
    assert!(matches!(
        read(&["--search-depth", "6"]),
        Err(OptionFault::Rule("counterfactual options are outside their supported ranges"))
    ));
    assert!(matches!(read(&["--horizon", "x"]), Err(OptionFault::Unreadable("horizon"))));
    assert!(matches!(
        read(&["--sample-modulus", "0"]),
        Err(OptionFault::Rule(_))
    ));
}
