use kvadrat_strategy::bags::parse_bags;
use kvadrat_strategy::compare::{
    compare_group, compare_scores, completed_among, group_keys, group_list, group_members, pair_up,
    repeated_seed, CompareFault, EpisodeRow,
};
use kvadrat_strategy::corpus::{
    beam_width, chooser, depth_for_game, episode_id, game_setup, label, lexicon_for_game,
    play_game, shard_file, shard_is_short, Aggregate, Chooser, Sequencer, ShardCounter,
};
use kvadrat_strategy::counterfactual::{
    add_episode_tasks, EpisodeRecord, Task, TaskCollector, TaskFault, TrialOptions,
};
use kvadrat_strategy::episode::{play_episode, Episode, MovePolicy};
use kvadrat_strategy::game::{CurrentMetrics, GameState, Phase};
use kvadrat_strategy::native::{Piece, Strategy};
use kvadrat_strategy::options::SelfPlayNumbers;
use kvadrat_strategy::random::game_seed;
use kvadrat_strategy::records::{board_view, piece_view, plan};
use kvadrat_strategy::rollout::{
    process_task, put_baseline_first, CounterfactualRecord, Rollout, TrialFault,
};
use kvadrat_strategy::selection::{
    group_pairs, list_part, of_lexicon, select_move, SelectionPart,
};
use kvadrat_strategy::trials::{
    groups_in_split, list_quantity, measure, objective, of_lexicon as groups_of_lexicon,
    open_trials, total_quantity, trial_record, write_header, Group, Quantity, TrialDataFault,
};

fn piece(kind: u8, letters: &[u8; 4]) -> Piece {
    Piece {
        kind,
        letters: letters.map(|letter| letter - b'A' + 1),
    }
}

/// A word graph with the words AB and BA.
fn strategy() -> Strategy {
    let end = 0x400000u32;
    let accepts = 0x800000u32;
    let nodes = [
        2 | end,
        end,
        (1 << 24) | 4,
        (2 << 24) | 5 | end,
        (2 << 24) | accepts | end,
        (1 << 24) | accepts | end,
    ];
    let bytes: Vec<u8> = nodes.iter().flat_map(|node| node.to_le_bytes()).collect();
    Strategy::from_kwg_bytes(&bytes).expect("word graph")
}

fn bags() -> Vec<Vec<[u8; 4]>> {
    let first = vec!["STAR"; 28].join(" ");
    let second = vec!["WORD"; 28].join(" ");
    parse_bags(&format!("{first}\n{second}\n"))
}

#[test]
fn games_deal_each_piece_once_in_seven() {
    let strategy = strategy();
    let bags = bags();
    let mut game = GameState::new(1, &strategy, &bags);
    assert_eq!(game.phase, Phase::Playing);
    let pieces = game.sequence(&bags, 14);
    let mut first: Vec<u8> = pieces[..7].iter().map(|piece| piece.kind).collect();
    let mut second: Vec<u8> = pieces[7..].iter().map(|piece| piece.kind).collect();
    first.sort();
    second.sort();
    assert_eq!(first, [0, 1, 2, 3, 4, 5, 6]);
    assert_eq!(second, [0, 1, 2, 3, 4, 5, 6]);
    let ahead = game.root_visible(&bags);
    assert_eq!(ahead.len(), 5);
    assert_eq!(ahead[0].kind, pieces[1].kind);
    let later = game.leaf_visible(&bags, 3);
    assert_eq!(later[0].kind, pieces[3].kind);
    assert_eq!(game.sequence(&bags, 0).len(), 1);
    assert_eq!(game.current.pieces, 1);
}

#[test]
fn the_first_deal_follows_the_generator() {
    let strategy = strategy();
    let bags = bags();
    let mut game = GameState::new(77, &strategy, &bags);
    let pieces = game.sequence(&bags, 7);
    let mut state = 77u32;
    let mut bag = [0u8, 1, 2, 3, 4, 5, 6];
    for index in (1..7usize).rev() {
        state ^= state << 13;
        state ^= state >> 17;
        state ^= state << 5;
        let place = (state as f64 / 4_294_967_296.0 * (index + 1) as f64).floor() as usize;
        bag.swap(index, place);
    }
    let dealt: Vec<u8> = pieces.iter().map(|piece| piece.kind).collect();
    assert_eq!(dealt, bag);
}

#[test]
fn moves_are_counted_and_described() {
    let strategy = strategy();
    let bags = bags();
    let mut game = GameState::new(5, &strategy, &bags);
    let sequence = game.sequence(&bags, 1);
    let outcome = strategy
        .find_best_move(&game.board, 0, &sequence, 12)
        .expect("a move");
    let described = plan(sequence[0], &outcome);
    assert_eq!(
        described.reason,
        format!(
            "Native depth-1 search selected column {} at {}\u{b0}.",
            outcome.col + 1,
            u16::from(outcome.rotation) * 90
        )
    );
    assert_eq!(described.source_letters.len(), 4);
    let mut banked = outcome.clone();
    banked.immediate_lines = 1;
    banked.immediate_score = 64;
    banked.immediate_words = strategy
        .analyze_row(&[33, 66, 0, 0, 0, 0, 0, 0, 0, 0])
        .expect("a valid row");
    assert!(banked.immediate_words.is_empty());
    game.apply(&strategy, &bags, &banked);
    assert_eq!((game.current.lines, game.current.score, game.current.pieces), (1, 64, 2));
    assert_eq!(game.board, outcome.board);
    assert_eq!(game.phase, Phase::Playing);
    game.give_up();
    assert_eq!(game.phase, Phase::Over);
    assert!(game.position(&strategy, &bags).is_none());
}

#[test]
fn forty_lines_complete_a_game() {
    let strategy = strategy();
    let bags = bags();
    let mut game = GameState::new(5, &strategy, &bags);
    let sequence = game.sequence(&bags, 1);
    let mut outcome = strategy
        .find_best_move(&game.board, 0, &sequence, 12)
        .expect("a move");
    outcome.immediate_lines = 20;
    game.apply(&strategy, &bags, &outcome);
    assert_eq!(game.phase, Phase::Playing);
    game.apply(&strategy, &bags, &outcome);
    assert_eq!(game.phase, Phase::Complete);
    assert!(game.active.is_none());
}

#[test]
fn episodes_are_reproducible_and_labelled() {
    let strategy = strategy();
    let bags = bags();
    let policy = MovePolicy::Best { width: 12 };
    let first = play_episode(3, &strategy, &bags, 1, policy);
    let second = play_episode(3, &strategy, &bags, 1, policy);
    assert_eq!(first.game.board, second.game.board);
    assert_eq!(first.steps.len(), second.steps.len());
    assert!(first.steps.len() > 5);
    assert!(first.game.phase != Phase::Playing || first.steps.len() == 400);
    let targets = first.targets();
    assert_eq!(targets.len(), first.steps.len());
    let last = targets[targets.len() - 1];
    assert_eq!(last.four.score, last.to_go.score);
    assert_eq!(targets[0].terminal_score, first.game.current.score);
    assert_eq!(targets[0].to_go.lines as u32, first.game.current.lines);
    let summary = first.summary();
    assert_eq!(summary.positions as usize, first.steps.len());
    let nodes: u64 = first.steps.iter().map(|step| u64::from(step.action.nodes)).sum();
    assert_eq!(summary.search_nodes, nodes);
    let mut aggregate = Aggregate::empty();
    aggregate.include_game(&summary);
    aggregate.include_game(&summary);
    assert_eq!(aggregate.episodes, 2);
    assert_eq!(aggregate.positions, 2 * summary.positions);
    assert_eq!(aggregate.completed + aggregate.topped_out, 2);

    let mut by_hand = Episode::begin(3, &strategy, &bags);
    let sequence = by_hand.game.sequence(&bags, 1);
    let outcome = strategy.find_best_move(&by_hand.game.board, 0, &sequence, 12);
    by_hand.make_move(&strategy, &bags, outcome);
    assert!(by_hand.goes_on());
    by_hand.make_move(&strategy, &bags, None);
    assert!(!by_hand.goes_on());
    assert_eq!(by_hand.steps.len(), 1);
    assert_eq!(by_hand.steps[0].action.nodes, first.steps[0].action.nodes);
}

#[test]
fn pooled_episodes_run_to_their_end() {
    let strategy = strategy();
    let bags = bags();
    let policy = MovePolicy::Pool {
        width: 12,
        candidate_width: 24,
        candidates: 4,
    };
    let episode = play_episode(8, &strategy, &bags, 1, policy);
    assert!(episode.steps.len() > 5);
}

fn metrics(score: i32, lines: u32) -> CurrentMetrics {
    CurrentMetrics {
        score,
        lines,
        pieces: 0,
        words: 0,
        total_word_length: 0,
    }
}

#[test]
fn labels_look_four_eight_and_sixteen_moves_ahead() {
    let positions: Vec<CurrentMetrics> =
        (0..12).map(|index| metrics(index * 100, 2 + index as u32)).collect();
    let targets = label(&positions, metrics(5_000, 39), Phase::Over);
    assert_eq!(targets[0].four.score, 400);
    assert_eq!(targets[0].eight.lines, 8);
    assert_eq!(targets[0].sixteen.score, 5_000);
    assert_eq!(targets[5].eight.score, 4_500);
    assert!(targets[3].topped_out && !targets[3].completed);
    assert_eq!(targets[11].to_go.lines, 26);
    let many: Vec<CurrentMetrics> = (0..500)
        .map(|index| metrics(-1_000_000_000 + index, 3_000_000_000 + index as u32))
        .collect();
    let targets = label(&many, metrics(1_000_000_000, 3_000_000_500), Phase::Complete);
    assert_eq!(targets.len(), 500);
    assert_eq!((targets[0].sixteen.score, targets[0].sixteen.lines), (16, 16));
    assert_eq!(targets[0].to_go.score, 2_000_000_000);
    assert_eq!(targets[499].to_go.lines, 1);
}

#[test]
fn results_come_out_in_the_order_of_their_numbers() {
    let mut sequencer = Sequencer::new();
    assert!(sequencer.accept(2, "c").is_empty());
    assert_eq!(sequencer.accept(0, "a"), ["a"]);
    assert!(sequencer.accept(4, "e").is_empty());
    assert_eq!(sequencer.accept(1, "b"), ["b", "c"]);
    assert_eq!(sequencer.next, 3);
    assert_eq!(sequencer.accept(3, "d"), ["d", "e"]);
    assert!(sequencer.pending.is_empty());
}

fn numbers(threads: usize, root_candidate_beam: Option<usize>) -> SelfPlayNumbers {
    SelfPlayNumbers {
        depths: vec![1, 2],
        shard_records: 2_000,
        threads,
        beam_width: Some(12),
        fragment_candidates: 6,
        root_candidate_beam,
        root_candidates: 3,
        root_ranker_candidate_beam: 64,
        root_ranker_candidates: 12,
        max_games: 4,
        seed: 12_628_309,
    }
}

#[test]
fn a_run_comes_out_in_order_whatever_finishes_first() {
    let orders: [&[u64]; 4] = [
        &[0, 1, 2, 3, 4],
        &[4, 3, 2, 1, 0],
        &[2, 0, 4, 1, 3],
        &[1, 0, 3, 2, 4],
    ];
    for order in orders {
        let mut sequencer = Sequencer::new();
        let mut released = Vec::new();
        for &number in order {
            released.extend(sequencer.accept(number, number * 10));
        }
        assert_eq!(released, [0, 10, 20, 30, 40]);
        assert_eq!(sequencer.next, 5);
        assert!(sequencer.pending.is_empty());
    }
}

#[test]
fn games_do_not_depend_on_the_number_of_threads() {
    let strategy = strategy();
    let bags = bags();
    let mut runs = Vec::new();
    for (threads, order) in [(1, [0u64, 1, 2]), (7, [2, 1, 0])] {
        let numbers = numbers(threads, None);
        let mut sequencer = Sequencer::new();
        let mut boards = Vec::new();
        for index in order {
            let game = play_game(&numbers, &strategy, &bags, index);
            for episode in sequencer.accept(index, game) {
                boards.push((episode.game.board, episode.steps.len()));
            }
        }
        runs.push(boards);
    }
    assert_eq!(runs[0].len(), 3);
    assert_eq!(runs[0], runs[1]);
    let alone = play_episode(
        game_seed(12_628_309, 1),
        &strategy,
        &bags,
        2,
        MovePolicy::Best { width: 12 },
    );
    assert_eq!(runs[0][1], (alone.game.board, alone.steps.len()));
}

#[test]
fn a_game_is_set_up_from_its_number() {
    let mut options = numbers(1, Some(24));
    let setup = game_setup(&options, 3);
    assert_eq!((setup.depth, setup.width), (2, 12));
    assert_eq!(setup.seed, game_seed(12_628_309, 3));
    assert!(matches!(
        setup.policy,
        MovePolicy::Pool {
            width: 12,
            candidate_width: 24,
            candidates: 3
        }
    ));
    assert_eq!(chooser(&options, true, true), Chooser::Ranker);
    assert_eq!(chooser(&options, false, true), Chooser::Search);
    options.beam_width = None;
    options.root_candidate_beam = None;
    assert_eq!(chooser(&options, false, true), Chooser::Fragments);
    assert_eq!(chooser(&options, false, false), Chooser::Search);
    options.depths = vec![2, 3, 3];
    let setup = game_setup(&options, 4);
    assert_eq!((setup.depth, setup.width), (3, 64));
    assert!(matches!(setup.policy, MovePolicy::Best { width: 64 }));
}

#[test]
fn shards_are_filled_one_after_the_other() {
    let mut shard = ShardCounter::new();
    assert!(shard.fill(60, 100).is_none());
    let done = shard.fill(50, 100).expect("a full shard");
    assert_eq!((done.index, done.records), (0, 110));
    assert!(shard.finish().is_none());
    assert!(shard.fill(0, 100).is_none());
    shard.fill(7, 100);
    let last = shard.finish().expect("a last shard");
    assert_eq!((last.index, last.records), (1, 7));
    assert!(shard_is_short(true, 5, 6) && !shard_is_short(true, 6, 6));
    assert!(!shard_is_short(false, 5, 6));
    assert_eq!(shard_file(7), "positions-00007.jsonl.gz");
    assert_eq!(shard_file(123_456), "positions-123456.jsonl.gz");
    assert_eq!(episode_id("now", 42), "now-0000042");
    assert_eq!([beam_width(1), beam_width(2), beam_width(3), beam_width(4)], [48, 48, 64, 72]);
    assert_eq!(depth_for_game(&vec![2, 3, 3], 4), 3);
    assert_eq!((lexicon_for_game(6), lexicon_for_game(7)), (0, 1));
}

fn episode(length: u16, seed: u32) -> Vec<EpisodeRecord> {
    (0..length)
        .map(|step| EpisodeRecord {
            episode_id: format!("game-{seed}"),
            step,
            lexicon: "CSW24".to_string(),
            seed,
            board: board_view(&[0; 220]),
            active: piece_view(piece((step % 7) as u8, b"LION")),
            lines: 0,
        })
        .collect()
}

#[test]
fn tasks_are_sampled_from_whole_episodes() {
    let mut tasks: Vec<Task> = Vec::new();
    assert_eq!(add_episode_tasks(&episode(20, 4), 6, 1, 100, &mut tasks), Ok(()));
    assert_eq!(tasks.len(), 15);
    assert_eq!(tasks[3].step, 3);
    assert_eq!(tasks[3].future[1].kind, 4);
    assert_eq!(add_episode_tasks(&episode(5, 4), 6, 1, 100, &mut tasks), Ok(()));
    assert_eq!(tasks.len(), 15);
    assert_eq!(add_episode_tasks(&episode(20, 5), 6, 1, 18, &mut tasks), Ok(()));
    assert_eq!(tasks.len(), 18);
    let mut few: Vec<Task> = Vec::new();
    assert_eq!(add_episode_tasks(&episode(200, 9), 6, 8, 1_000, &mut few), Ok(()));
    let expected = (0..195u16)
        .filter(|&step| kvadrat_strategy::random::mixed_hash(9, step) % 8 == 0)
        .count();
    assert_eq!(few.len(), expected);
}

#[test]
fn broken_episodes_are_told_apart() {
    let mut tasks: Vec<Task> = Vec::new();
    let mut gap = episode(10, 4);
    gap.remove(4);
    assert_eq!(add_episode_tasks(&gap, 6, 1, 100, &mut tasks), Err(TaskFault::Order));
    let mut lexicon = episode(10, 4);
    lexicon[0].lexicon = "TWL".to_string();
    assert_eq!(add_episode_tasks(&lexicon, 6, 1, 100, &mut tasks), Err(TaskFault::Lexicon(0)));
    let mut seed = episode(10, 4);
    seed[3].seed = 5;
    assert_eq!(add_episode_tasks(&seed, 6, 1, 100, &mut tasks), Err(TaskFault::Boundary));
    let mut rows = episode(10, 4);
    rows[0].board.letters.pop();
    assert_eq!(add_episode_tasks(&rows, 6, 1, 100, &mut tasks), Err(TaskFault::Rows));
    let mut named = episode(10, 4);
    named[2].active.piece = "X".to_string();
    assert!(matches!(
        add_episode_tasks(&named, 6, 1, 100, &mut tasks),
        Err(TaskFault::Piece(2, _))
    ));
    let mut colored = episode(10, 4);
    colored[0].board.pieces[0] = "I.........".to_string();
    assert!(matches!(
        add_episode_tasks(&colored, 6, 1, 100, &mut tasks),
        Err(TaskFault::Board(_))
    ));
    assert!(tasks.is_empty());
}

#[test]
fn a_new_game_ends_the_one_before() {
    let mut collector = TaskCollector::new();
    for record in episode(8, 1).into_iter().chain(episode(7, 2)) {
        assert_eq!(collector.push(record, 6, 1, 100), Ok(()));
    }
    assert_eq!(collector.tasks.len(), 3);
    assert_eq!(collector.episode.len(), 7);
    assert_eq!(collector.finish(6, 1, 100), Ok(()));
    assert_eq!(collector.tasks.len(), 5);
    assert!(collector.episode.is_empty());
}

fn options() -> TrialOptions {
    TrialOptions {
        positions: 10,
        candidates: 4,
        search_depth: 1,
        rollout_depth: 1,
        horizon: 3,
        candidate_beam_width: 24,
        rollout_beam_width: 12,
        threads: 1,
        sample_modulus: 1,
    }
}

fn task(board: [u8; 220]) -> Task {
    Task {
        seed: 11,
        step: 2,
        lexicon: 0,
        board,
        current_lines: 5,
        future: (0..6).map(|index| piece(index % 7, b"STAR")).collect(),
    }
}

#[test]
fn trials_begin_with_the_usual_move() {
    let strategy = strategy();
    let options = options();
    assert!(options.is_valid());
    let task = task([0; 220]);
    let records = process_task(&strategy, &task, &options).expect("trials");
    assert_eq!(records.len(), 4);
    let usual = strategy
        .find_best_move(&task.board, 5, &task.future[..1], 12)
        .expect("a move");
    assert_eq!(records[0].board, usual.board);
    for (rank, record) in records.iter().enumerate() {
        assert_eq!(record.rank as usize, rank);
        assert_eq!(record.candidate_count, 4);
        assert_eq!(record.current_lines, 5);
        assert_eq!(record.visible[0].kind, 1);
        assert_eq!(record.rollout.placements, 3);
        assert!(!record.rollout.topped_out && !record.rollout.completed);
        assert_eq!(record.objective(), record.immediate_score + record.rollout.score);
    }
    let full = [33u8; 220];
    assert!(matches!(
        process_task(&strategy, &self::task(full), &options),
        Err(TrialFault::NoBaseline)
    ));
}

#[test]
fn the_usual_move_is_added_where_it_is_missing() {
    let strategy = strategy();
    let pieces = [piece(0, b"STAR")];
    let candidates = strategy.root_candidates(&[0; 220], 0, &pieces, 24, 4);
    let boards: Vec<[u8; 220]> = candidates.iter().map(|found| found.board).collect();
    let mut usual = strategy.find_best_move(&[0; 220], 0, &pieces, 12).expect("a move");
    usual.board = boards[2];
    let moved = put_baseline_first(candidates, usual, 4);
    assert_eq!(moved.len(), 4);
    assert_eq!(moved[0].board, boards[2]);
    assert_eq!(moved[1].board, boards[0]);
    assert_eq!(moved[3].board, boards[3]);
    let candidates = strategy.root_candidates(&[0; 220], 0, &pieces, 24, 4);
    let mut usual = strategy.find_best_move(&[0; 220], 0, &pieces, 12).expect("a move");
    usual.board = [0; 220];
    usual.evaluation = 3;
    let added = put_baseline_first(candidates, usual, 4);
    assert_eq!(added.len(), 4);
    assert_eq!(added[0].board, [0; 220]);
    assert_eq!(added[0].heuristic_value, 3 * kvadrat_strategy::binary64::ONE);
    assert_eq!(added[1].board, boards[0]);
}

fn trial(rank: u8, count: u16, seed: u32, lexicon: u8, score: i32, topped_out: bool) -> CounterfactualRecord {
    CounterfactualRecord {
        board: [0; 220],
        visible: [piece(1, b"STAR"); 5],
        current_lines: 9,
        lexicon,
        rank,
        seed,
        step: 3,
        candidate_count: count,
        immediate_score: 100,
        immediate_lines: 1,
        immediate_words: 2,
        immediate_word_length: 9,
        projected_score: 250,
        projected_lines: 2,
        heuristic_value: 0,
        rollout: Rollout {
            score,
            lines: 5,
            words: 4,
            word_length: 18,
            placements: 8,
            completed: false,
            topped_out,
        },
    }
}

#[test]
fn trials_are_packed_field_by_field() {
    let record = trial(2, 3, 0x0a0b_0c0d, 1, 700, true);
    let bytes = record.encode(1.5f32.to_bits());
    assert_eq!(bytes.len(), 288);
    assert_eq!(bytes[220..225], [1, 19, 20, 1, 18]);
    assert_eq!(bytes[245..248], [9, 1, 2]);
    assert_eq!(bytes[248..256], [0x0d, 0x0c, 0x0b, 0x0a, 3, 0, 3, 0]);
    assert_eq!(bytes[256..264], [100, 0, 0, 0, 1, 2, 9, 0]);
    assert_eq!(bytes[264..270], [250, 0, 0, 0, 2, 0]);
    assert_eq!(f32::from_le_bytes(bytes[270..274].try_into().expect("four bytes")), 1.5);
    assert_eq!(bytes[274..288], [0xbc, 2, 0, 0, 5, 0, 4, 0, 18, 0, 8, 0, 1, 0]);
    assert_eq!(objective(&bytes), 100 + 700 - 2_500);
    assert_eq!(record.objective(), -1_700);
}

fn file(records: &[CounterfactualRecord], groups: u64) -> Vec<u8> {
    let mut bytes = write_header(groups, records.len() as u64);
    for record in records {
        bytes.extend(record.encode(0));
    }
    bytes
}

#[test]
fn files_of_trials_fall_into_groups() {
    let records = [
        trial(0, 2, 5, 0, 10, false),
        trial(1, 2, 5, 0, 20, false),
        trial(0, 1, 6, 1, 30, false),
    ];
    let bytes = file(&records, 2);
    let groups = open_trials(&bytes).expect("two groups");
    assert_eq!(
        groups,
        [
            Group { start: 0, len: 2, seed: 5, lexicon: 0 },
            Group { start: 2, len: 1, seed: 6, lexicon: 1 },
        ]
    );
    assert_eq!(trial_record(&bytes, 1)[247], 1);
    let everywhere: usize = (0..3).map(|split| groups_in_split(&groups, split).len()).sum();
    assert_eq!(everywhere, 2);
    assert_eq!(open_trials(&file(&records, 3)), Err(TrialDataFault::GroupCount));
    assert_eq!(open_trials(&bytes[..bytes.len() - 1]), Err(TrialDataFault::Length));
    assert_eq!(open_trials(&bytes[..10]), Err(TrialDataFault::Magic));
    let mut version = bytes.clone();
    version[8] = 2;
    assert_eq!(open_trials(&version), Err(TrialDataFault::Version));
    assert_eq!(open_trials(&file(&records[1..], 1)), Err(TrialDataFault::Group));
    let odd = [trial(0, 2, 5, 0, 10, false), trial(1, 2, 6, 0, 20, false)];
    assert_eq!(open_trials(&file(&odd, 1)), Err(TrialDataFault::Sibling));
}

#[test]
fn groups_are_measured_with_hindsight() {
    let records = vec![
        trial(0, 3, 5, 0, 500, false),
        trial(1, 3, 5, 0, 900, false),
        trial(2, 3, 5, 0, 900, false),
    ];
    let found = measure(&records);
    assert_eq!((found.baseline_objective, found.oracle_objective), (600, 1_000));
    assert_eq!((found.oracle_delta, found.oracle_rank, found.candidates), (400, 1, 3));
    assert_eq!(found.curves, [600, 1_000, 1_000, 1_000, 1_000, 1_000]);
    let flat = measure(&vec![trial(0, 1, 5, 1, 0, true)]);
    assert_eq!((flat.oracle_delta, flat.oracle_rank), (0, 0));
    assert!(flat.baseline_topped_out && flat.oracle_topped_out);
    let measures = vec![found, flat];
    assert_eq!(total_quantity(&measures, Quantity::Candidates), 4);
    assert_eq!(total_quantity(&measures, Quantity::Headroom), 1);
    assert_eq!(total_quantity(&measures, Quantity::ChangedAction), 1);
    assert_eq!(total_quantity(&measures, Quantity::BaselineTopOut), 1);
    assert_eq!(total_quantity(&measures, Quantity::Uplift(1)), 400);
    assert_eq!(list_quantity(&measures, Quantity::Baseline), [600, -2_400]);
    assert_eq!(groups_of_lexicon(&measures, true).len(), 1);
    assert_eq!(groups_of_lexicon(&measures, false)[0].candidates, 1);
}

#[test]
fn pairs_and_selections_follow_the_scores() {
    let pairs = group_pairs(&vec![10, 30, 10], 5);
    assert_eq!(pairs.len(), 2);
    assert_eq!((pairs[0].left, pairs[0].right), (5, 6));
    assert!(!pairs[0].left_wins && pairs[1].left_wins);
    assert_eq!((pairs[1].left, pairs[1].right, pairs[1].difference), (6, 7, 20));

    let values = vec![99i64, 10, 30, 20];
    let topped_out = vec![false, false, true, false];
    let scores: Vec<u32> = [9.0f32, -1.0, 2.0, 2.0].iter().map(|score| score.to_bits()).collect();
    let heuristics: Vec<u32> =
        [9.0f32, -0.0, 0.0, -3.0].iter().map(|score| score.to_bits()).collect();
    let selection = select_move(1, &values, &topped_out, &scores, &heuristics, 1, 4);
    assert_eq!((selection.baseline, selection.model, selection.oracle), (10, 20, 30));
    assert_eq!((selection.heuristic, selection.selected_rank), (30, 2));
    assert!(!selection.selected_topped_out);
    let selections = vec![selection];
    assert_eq!(list_part(&selections, SelectionPart::Uplift), [10]);
    assert_eq!(list_part(&selections, SelectionPart::ChangedAction), [1]);
    assert_eq!(of_lexicon(&selections, 1).len(), 1);
    assert!(of_lexicon(&selections, 0).is_empty());
}

fn row(seed: u32, score: i32, lexicon: &str) -> EpisodeRow {
    EpisodeRow {
        seed,
        depth: 3,
        lexicon: lexicon.to_string(),
        score,
        words: seed + 1,
        phase: if score >= 60 { "complete" } else { "over" }.to_string(),
    }
}

#[test]
fn runs_are_compared_game_by_game() {
    let baseline = vec![row(1, 100, "CSW24"), row(2, 50, "NWL23"), row(3, 70, "CSW24")];
    let candidate = vec![row(3, 60, "CSW24"), row(1, 150, "CSW24"), row(2, 50, "NWL23")];
    assert_eq!(repeated_seed(&baseline), None);
    let pairs = pair_up(&baseline, &candidate).expect("paired games");
    assert_eq!(pairs, [1, 2, 0]);
    let left: Vec<i32> = baseline.iter().map(|game| game.score).collect();
    let right: Vec<i32> = pairs.iter().map(|&place| candidate[place].score).collect();
    let compared = compare_scores(&left, &right);
    assert_eq!(compared.deltas, [-10, 0, 50]);
    assert_eq!((compared.baseline_sum, compared.candidate_sum, compared.delta_sum), (220, 260, 40));
    assert_eq!(compared.middle, Some((0, 0)));
    assert_eq!((compared.tally.wins, compared.tally.ties, compared.tally.losses), (1, 1, 1));
    assert_eq!(group_keys(&baseline[1]), ["all", "depth3", "NWL23", "depth3-NWL23"]);

    assert_eq!(pair_up(&baseline, &candidate[..2].iter().map(|game| row(game.seed, 0, "CSW24")).collect()), Err(CompareFault::Counts));
    let other = vec![row(1, 0, "CSW24"), row(2, 0, "CSW24"), row(3, 0, "CSW24")];
    assert_eq!(pair_up(&baseline, &other), Err(CompareFault::Mismatch(2)));
    let missing = vec![row(1, 0, "CSW24"), row(2, 0, "NWL23"), row(4, 0, "CSW24")];
    assert_eq!(pair_up(&baseline, &missing), Err(CompareFault::Missing(3)));
    let twice = vec![row(1, 0, "CSW24"), row(2, 0, "CSW24"), row(1, 0, "CSW24")];
    assert_eq!(repeated_seed(&twice), Some(1));
}

#[test]
fn groups_are_compared_with_their_completed_games() {
    let baseline = vec![row(1, 100, "CSW24"), row(2, 50, "NWL23"), row(3, 70, "CSW24")];
    let candidate = vec![row(3, 50, "CSW24"), row(1, 150, "CSW24"), row(2, 60, "NWL23")];
    let partners = pair_up(&baseline, &candidate).expect("paired games");
    assert_eq!(
        group_list(&baseline),
        ["all", "depth3", "CSW24", "depth3-CSW24", "NWL23", "depth3-NWL23"]
    );
    assert_eq!(group_members(&baseline, &"all".to_string()), [0, 1, 2]);
    let members = group_members(&baseline, &"CSW24".to_string());
    assert_eq!(members, [0, 2]);
    assert!(group_members(&baseline, &"depth2".to_string()).is_empty());
    assert_eq!(group_members(&vec![row(9, 1, "all")], &"all".to_string()), [0, 0]);
    assert!(group_list(&vec![]).is_empty());
    let group = compare_group(&baseline, &candidate, &partners, &members);
    assert_eq!(group.scores.games, 2);
    assert_eq!(group.scores.deltas, [-20, 50]);
    assert_eq!((group.scores.baseline_sum, group.scores.candidate_sum), (170, 200));
    assert_eq!((group.baseline_completed, group.candidate_completed), (2, 1));
    assert_eq!(group.words_delta, 0);
    assert_eq!(completed_among(&baseline, &vec![0, 1, 2]), 2);
    assert_eq!(completed_among(&baseline, &vec![]), 0);
    let nobody = compare_group(&baseline, &candidate, &partners, &vec![]);
    assert_eq!((nobody.scores.games, nobody.scores.middle), (0, None));
}
