use go19::alphabeta::{
    bound_of, created_immediate_threat, forcing_moves, keep_candidates, table_settles,
    winning_replies_after, would_win, AlphaBetaConfig, Bound, ForcingMoves,
};
use go19::config::Real;
use go19::console::{
    board_from_move_values, board_from_moves, press, render_grid, result_text, BoardAction, Cursor,
    Key, MoveError, Study,
};
use go19::game::{Board, Move, Outcome, Player, ACTION_COUNT};
use go19::gomocup::from_stones;
use go19::grid::CELL_COUNT;
use go19::lines::{check_sparse_sizes, cross_attention, encode_stones, self_attention};
use go19::model::{point_region, stone_slot};
use go19::pipeline::{
    league_games, league_mode, rate_stage, temperature_stage, training_device_name, Accelerator,
    LeagueGame, LeagueMode, Stage,
};
use go19::rng::{board_hash, same_position};
use go19::search::{
    enter_threat, move_class, terminal_value, Deepening, Entry, MoveLoop, Searcher, Step, Threat,
    MATE_SCORE,
};
use go19::symmetry::{inverse_table, root_symmetry, transform_index};
use go19::tree::{rank_candidates, SearchTree};
use go19::walk::{first_greatest, reach, Reach, Walk};

fn mv(text: &str) -> Move {
    Move::parse(text).unwrap()
}

fn stones(black: &[&str], white: &[&str]) -> Board {
    let mut list = Vec::new();
    for i in 0..black.len() {
        list.push((mv(black[i]), Player::Black));
        if i < white.len() {
            list.push((mv(white[i]), Player::White));
        }
    }
    from_stones(&list).unwrap()
}

/// What the root of a search keeps where every action is as likely.
fn root_moves(board: &Board) -> Vec<Move> {
    let moves = board.rule_legal_moves();
    let us = board.to_move();
    let winning = moves
        .iter()
        .map(|&choice| would_win(board, choice, us))
        .collect();
    let blocking = moves
        .iter()
        .map(|&choice| would_win(board, choice, us.other()))
        .collect();
    let forcing = moves
        .iter()
        .map(|&choice| winning_replies_after(board, choice) >= 2)
        .collect();
    keep_candidates(&winning, &blocking, &forcing, true)
        .into_iter()
        .map(|index| moves[index])
        .collect()
}

#[test]
fn immediate_win_replaces_network_policy() {
    let board = stones(&["d8", "e8", "f8", "g8"], &["d7", "e7", "f7", "a1"]);
    let result = root_moves(&board);
    assert!(result
        .iter()
        .all(|&choice| choice == mv("c8") || choice == mv("h8")));
    assert_eq!(result.len(), 2);
}

#[test]
fn immediate_loss_restricts_search_to_blocks() {
    let board = stones(&["a1", "a3", "a5", "a7"], &["d8", "e8", "f8", "g8"]);
    let result = root_moves(&board);
    assert!(result
        .iter()
        .all(|&choice| choice == mv("c8") || choice == mv("h8")));
    assert_eq!(result.len(), 2);
}

#[test]
fn open_four_replaces_network_policy() {
    let board = stones(&["d8", "e8", "g8"], &["a1", "a3", "a5"]);
    let result = root_moves(&board);
    assert_eq!(result.len(), 1);
    assert_eq!(result[0], mv("f8"));
}

#[test]
fn quiet_positions_keep_every_action() {
    let board = Board::new();
    assert_eq!(root_moves(&board).len(), ACTION_COUNT);
}

#[test]
fn forcing_moves_win_before_they_block() {
    let board = stones(&["d8", "e8", "f8", "g8"], &["d7", "e7", "f7", "g7"]);
    match forcing_moves(&board) {
        Some(ForcingMoves::Win(moves)) => {
            assert_eq!(moves.len(), 2);
            assert!(moves.contains(&mv("c8")) && moves.contains(&mv("h8")));
        }
        _ => panic!("the side to move wins at once"),
    }
    let board = stones(&["c8", "a1", "a2", "a4"], &["d8", "e8", "f8", "g8"]);
    match forcing_moves(&board) {
        Some(ForcingMoves::Block(moves)) => assert_eq!(moves, vec![mv("h8")]),
        _ => panic!("the opponent wins at one point"),
    }
    assert!(forcing_moves(&Board::new()).is_none());
}

#[test]
fn threats_are_seen_where_they_were_made() {
    let board = stones(&["d8", "e8", "f8", "g8"], &["a1", "a3", "a5"]);
    assert!(created_immediate_threat(&board, mv("g8"), Player::Black));
    assert!(!created_immediate_threat(&board, mv("a5"), Player::White));
}

#[test]
fn table_entries_settle_by_their_bounds() {
    assert_eq!(bound_of(1, 2, 5), Bound::Upper);
    assert_eq!(bound_of(3, 2, 5), Bound::Exact);
    assert_eq!(bound_of(5, 2, 5), Bound::Lower);
    assert!(table_settles(3, 7, Bound::Lower, 3, 0, 7));
    assert!(!table_settles(2, 7, Bound::Lower, 3, 0, 7));
    assert!(!table_settles(3, 6, Bound::Lower, 3, 0, 7));
    assert!(table_settles(3, 0, Bound::Upper, 3, 0, 7));
    assert!(table_settles(3, 4, Bound::Exact, 3, 0, 7));
}

#[test]
fn finished_games_score_by_their_distance() {
    assert_eq!(
        terminal_value(Outcome::Win(Player::Black), Player::Black, 3),
        MATE_SCORE - 3
    );
    assert_eq!(
        terminal_value(Outcome::Win(Player::Black), Player::White, 3),
        3 - MATE_SCORE
    );
    assert_eq!(terminal_value(Outcome::Draw, Player::White, 9), 0);
}

#[test]
fn stored_and_deciding_moves_come_first() {
    let board = stones(&["d8", "e8", "f8", "g8"], &["d7", "e7", "f7", "g7"]);
    assert_eq!(move_class(&board, mv("k10"), Some(mv("k10"))), 4);
    assert_eq!(move_class(&board, mv("h8"), None), 3);
    assert_eq!(move_class(&board, mv("h7"), None), 2);
    assert_eq!(move_class(&board, mv("k10"), None), 0);
}

/// The greatest of the scores, found through windows.
fn greatest(scores: &[i64], low: i64, high: i64) -> (i64, Option<usize>, usize) {
    let mut children = MoveLoop::new(low, high, -100, scores.len(), true);
    let mut asked = 0;
    loop {
        match children.ask() {
            Step::Done => return (children.best, children.chosen, asked),
            Step::Full(index) => children.answer(scores[index]),
            Step::Narrow(index) => {
                let above = children.alpha + 1;
                let value = if scores[index] >= above {
                    above
                } else {
                    scores[index]
                };
                children.answer(value);
            }
        }
        asked += 1;
    }
}

#[test]
fn narrow_windows_find_the_greatest_score() {
    assert_eq!(greatest(&[1, 5, 3, 9, 9], -50, 50), (9, Some(3), 7));
    assert_eq!(greatest(&[9, 8, 7], -50, 50), (9, Some(0), 3));
    assert_eq!(greatest(&[1, 60, 70], -50, 50), (60, Some(1), 3));
    assert_eq!(greatest(&[-60, -70], -50, 50), (-60, Some(0), 2));
    assert_eq!(greatest(&[], -50, 50), (-100, None, 0));
}

#[test]
fn closed_windows_leave_the_rest_out() {
    let mut children = MoveLoop::new(0, 10, -5, 4, false);
    assert_eq!(children.ask(), Step::Full(0));
    children.skip();
    assert_eq!(children.ask(), Step::Full(1));
    children.answer(4);
    assert!(!children.was_cut());
    children.answer(12);
    assert!(children.was_cut());
    assert_eq!(children.ask(), Step::Done);
    assert_eq!(children.chosen, Some(2));
}

#[test]
fn trees_share_positions_and_spend_their_budget() {
    let mut tree = SearchTree::new(Board::new());
    assert_eq!(tree.len(), 1);
    assert!(!tree.is_expanded(0));
    let moves = vec![mv("a1"), mv("b2"), mv("c3")];
    tree.expand(0, &moves);
    assert!(tree.is_expanded(0));
    assert_eq!(tree.edges(0).len(), 3);
    for turn in 0..12usize {
        let place = turn % 3;
        let child = tree.child(0, place, true, 100);
        assert_eq!(child, place + 1);
        tree.visit(0, place);
    }
    assert_eq!(tree.len(), 4);
    assert_eq!(tree.edges(0).iter().map(|edge| edge.visits).sum::<u32>(), 12);

    tree.expand(1, &vec![mv("k10")]);
    let after = tree.child(1, 0, true, 100);
    tree.expand(after, &vec![mv("c3")]);
    let first = tree.child(after, 0, true, 100);
    tree.expand(3, &vec![mv("k10")]);
    let other = tree.child(3, 0, true, 100);
    tree.expand(other, &vec![mv("a1")]);
    assert_eq!(tree.child(other, 0, true, 100), first);
    assert!(same_position(tree.board(first), tree.board(first)));
}

#[test]
fn unshared_trees_and_full_ones_keep_positions_apart() {
    for (share, most) in [(false, 100usize), (true, 1)] {
        let mut tree = SearchTree::new(Board::new());
        tree.expand(0, &vec![mv("a1"), mv("c3")]);
        for place in 0..2usize {
            let child = tree.child(0, place, share, most);
            tree.expand(child, &vec![mv("k10")]);
            let answer = tree.child(child, 0, share, most);
            tree.expand(answer, &vec![if place == 0 { mv("c3") } else { mv("a1") }]);
            tree.child(answer, 0, share, most);
        }
        assert_eq!(tree.len(), 7);
    }
}

#[test]
fn equal_positions_hash_equally() {
    let a = board_from_moves(&["a1", "k10", "c3"]).unwrap();
    let b = board_from_moves(&["c3", "k10", "a1"]).unwrap();
    assert!(same_position(&a, &b));
    assert_eq!(board_hash(&a), board_hash(&b));
    assert_ne!(board_hash(&a), board_hash(&Board::new()));
}

#[test]
fn candidates_rank_by_their_keys_and_then_their_places() {
    assert_eq!(rank_candidates(&[3, 9, 3, 10]), vec![3, 1, 0, 2]);
    assert!(rank_candidates(&[]).is_empty());
}

#[test]
fn real_numbers_order_as_they_compare() {
    let numbers = [f32::NEG_INFINITY, -2.5, -1e-3, -0.0, 0.0, 1e-3, 1.0, 7.5];
    for &a in &numbers {
        for &b in &numbers {
            let (x, y) = (Real(a.to_bits()).order(), Real(b.to_bits()).order());
            assert_eq!(a < b, x < y);
            assert_eq!(a == b, x == y);
        }
    }
}

/// The least numerator over 2^24 that is not below a share.
fn threshold(share: f32) -> u32 {
    (share * (1u32 << 24) as f32).ceil() as u32
}

#[test]
fn league_job_weights_produce_configured_game_fractions() {
    let (current_share, white_share, paired_share) = (0.70f32, 0.20f32, 0.10f32 * 0.5);
    let total = current_share + white_share + paired_share;
    let first = threshold(current_share / total);
    let second = threshold((current_share + white_share) / total);
    let mut current = 0usize;
    let mut white = 0usize;
    let mut paired = 0usize;
    for seed in 0..100_000_u64 {
        match league_mode(seed, first, second) {
            LeagueMode::CurrentSelfplay => current += 1,
            LeagueMode::CurrentWhite => white += 1,
            LeagueMode::PairedHistory => paired += 2,
        }
    }
    let games = (current + white + paired) as f32;
    assert!((current as f32 / games - 0.70).abs() < 0.01);
    assert!((white as f32 / games - 0.20).abs() < 0.01);
    assert!((paired as f32 / games - 0.10).abs() < 0.01);
}

#[test]
fn league_games_always_hold_the_current_model() {
    let both = LeagueGame {
        black_current: true,
        white_current: true,
    };
    assert_eq!(league_games(LeagueMode::PairedHistory, false), vec![both]);
    assert_eq!(league_games(LeagueMode::CurrentSelfplay, true), vec![both]);
    assert_eq!(league_games(LeagueMode::CurrentWhite, true).len(), 1);
    let pair = league_games(LeagueMode::PairedHistory, true);
    assert_eq!(pair.len(), 2);
    assert!(pair.iter().all(|game| game.black_current != game.white_current));
    assert!(pair[0].black_current && pair[1].white_current);
}

fn temperature_for_ply(start: f32, end: f32, delay: usize, decay: usize, ply: usize) -> f32 {
    match temperature_stage(ply, delay, decay) {
        Stage::Before => start,
        Stage::Within(passed) => start + (end - start) * (passed as f32 / decay as f32),
        Stage::Past => end,
    }
}

#[test]
fn temperature_decays_linearly() {
    assert_eq!(temperature_for_ply(0.9, 0.3, 10, 20, 9), 0.9);
    assert!((temperature_for_ply(0.9, 0.3, 10, 20, 20) - 0.6).abs() < 1e-6);
    assert_eq!(temperature_for_ply(0.9, 0.3, 10, 20, 30), 0.3);
    assert_eq!(temperature_for_ply(0.9, 0.3, 10, 0, 10), 0.3);
}

fn current_lr(step: usize) -> f32 {
    let (low, high, warmup, cosine) = (0.0001f32, 0.0008f32, 200usize, 10_000usize);
    match rate_stage(step, warmup, cosine) {
        Stage::Before => low + (high - low) * (step as f32 / warmup as f32),
        Stage::Within(passed) => {
            let progress = passed as f32 / cosine as f32;
            low + (high - low) * 0.5 * (1.0 + (std::f32::consts::PI * progress).cos())
        }
        Stage::Past => low,
    }
}

#[test]
fn learning_rate_warms_up_then_cosine_decays() {
    assert!((current_lr(0) - 0.0001).abs() < 1e-8);
    assert!((current_lr(100) - 0.00045).abs() < 1e-8);
    assert!((current_lr(200) - 0.0008).abs() < 1e-8);
    assert!((current_lr(5_200) - 0.00045).abs() < 1e-8);
    assert!((current_lr(10_200) - 0.0001).abs() < 1e-8);
    assert!((current_lr(20_000) - 0.0001).abs() < 1e-8);
}

#[test]
fn devices_are_named_by_what_was_found() {
    let name = |requested: usize, found: Accelerator| {
        training_device_name(requested, found).map(|chars| chars.iter().collect::<String>())
    };
    assert_eq!(name(0, Accelerator::Processor), Some("cpu".to_string()));
    assert_eq!(name(12, Accelerator::Cuda), Some("cuda:12".to_string()));
    assert_eq!(name(3, Accelerator::Metal), Some("metal:3".to_string()));
    assert_eq!(name(1, Accelerator::Processor), None);
}

#[test]
fn hemmed_in_stones_remain_tokens() {
    let stones = [
        (Move::new(7, 7).unwrap(), Player::Black),
        (Move::new(7, 6).unwrap(), Player::White),
        (Move::new(7, 8).unwrap(), Player::White),
        (Move::new(6, 7).unwrap(), Player::White),
        (Move::new(0, 0).unwrap(), Player::Black),
        (Move::new(0, 14).unwrap(), Player::Black),
        (Move::new(14, 0).unwrap(), Player::Black),
    ];
    let board = Board::from_position(&stones, Player::Black).unwrap();
    let tokens = encode_stones(&board);
    assert_eq!(tokens.len(), stones.len());
    assert_eq!(tokens[0], (Move::new(0, 0).unwrap(), false));
}

#[test]
fn attention_follows_lines() {
    let stones = [Move::new(0, 0).unwrap(), Move::new(3, 3).unwrap()];
    let candidates = [Move::new(3, 5).unwrap(), Move::new(9, 10).unwrap()];
    assert_eq!(self_attention(&stones), vec![true; 4]);
    let (mask, seen) = cross_attention(&candidates, &stones);
    assert_eq!(mask, vec![false, true, false, false]);
    assert_eq!(seen, vec![true, false]);
}

#[test]
fn sparse_sizes_are_checked() {
    let mut sizes = vec![64, 11552];
    for _ in 0..2 {
        sizes.extend([1024, 1024, 1024, 1024, 2048, 2048]);
    }
    sizes.extend([1024, 1024, 1024, 32, 361, 1024, 96]);
    assert!(check_sparse_sizes(&sizes));
    sizes[3] += 1;
    assert!(!check_sparse_sizes(&sizes));
    assert!(!check_sparse_sizes(&[]));
}

#[test]
fn regions_cover_the_board() {
    assert_eq!(point_region(0), 0);
    assert_eq!(point_region(CELL_COUNT - 1), 8);
    assert!((0..CELL_COUNT).all(|p| point_region(p) < 9));
    assert!((0..CELL_COUNT).all(|p| stone_slot(6, 1, p) < 18));
}

#[test]
fn root_samples_are_turned_each_in_its_own_way() {
    let mut seen = (0..8).map(|index| root_symmetry(77, index)).collect::<Vec<_>>();
    assert_eq!(seen[0], 5);
    assert_eq!(seen[1], 0);
    seen.sort();
    assert_eq!(seen, (0..8).collect::<Vec<_>>());
    for symmetry in 0..8 {
        let table = inverse_table(symmetry);
        for p in 0..CELL_COUNT {
            assert_eq!(table[transform_index(p, symmetry)], p);
        }
    }
}

#[test]
fn written_moves_make_positions() {
    let board = board_from_moves(&["d4", "pass", "q16"]).unwrap();
    assert_eq!(board.move_count(), 3);
    assert_eq!(board.cells()[mv("q16").0], 1);
    assert!(matches!(board_from_moves(&["d4", "z9"]), Err(MoveError::Invalid(1))));
    assert!(matches!(board_from_moves(&["d4", "d4"]), Err(MoveError::Illegal(1))));
    assert!(matches!(board_from_move_values(&[mv("d4"), mv("d4")]), Err(1)));
}

#[test]
fn keys_move_the_cursor_or_ask() {
    let board = Board::new();
    let mut cursor = Cursor::middle();
    assert_eq!((cursor.row, cursor.col), (9, 9));
    assert_eq!(press(&board, &mut cursor, Key::Up, false), None);
    assert_eq!(press(&board, &mut cursor, Key::Left, false), None);
    assert_eq!((cursor.row, cursor.col), (10, 8));
    assert_eq!(
        press(&board, &mut cursor, Key::Enter, false),
        Some(BoardAction::Place(Move::new(10, 8).unwrap()))
    );
    assert_eq!(
        press(&board, &mut cursor, Key::Pass, false),
        Some(BoardAction::Place(Move::pass()))
    );
    assert_eq!(press(&board, &mut cursor, Key::Back, false), None);
    assert_eq!(
        press(&board, &mut cursor, Key::Back, true),
        Some(BoardAction::Undo)
    );
    assert_eq!(
        press(&board, &mut cursor, Key::Clear, true),
        Some(BoardAction::Reset)
    );
    assert_eq!(
        press(&board, &mut cursor, Key::Quit, false),
        Some(BoardAction::Quit)
    );
    for _ in 0..30 {
        press(&board, &mut cursor, Key::Down, false);
        press(&board, &mut cursor, Key::Right, false);
    }
    assert_eq!((cursor.row, cursor.col), (0, 18));
}

#[test]
fn undo_restores_the_position() {
    assert!(matches!(
        Study::new(vec![mv("d4"), mv("e4"), mv("d4"), mv("e4")]),
        Err(2)
    ));
    let mut study = Study::new(vec![mv("d4")]).unwrap();
    let before = study.board.to_text();
    assert!(study.place(mv("q16")));
    assert!(!study.place(mv("q16")));
    study.undo();
    assert_eq!(study.board.to_text(), before);
    assert_eq!(study.history, vec![mv("d4")]);
    study.reset();
    assert!(study.history.is_empty());
    study.undo();
    assert_eq!(study.board.move_count(), 0);
}

#[test]
fn grids_show_stones_and_the_cursor() {
    let board = board_from_moves(&["a1", "b1"]).unwrap();
    let grid = render_grid(&board, Cursor { row: 0, col: 0 })
        .iter()
        .collect::<String>();
    assert!(grid.contains("[X]"));
    assert!(grid.contains('O'));
    assert!(grid.contains("19"));
    assert_eq!(
        result_text(Outcome::Win(Player::Black), Player::Black),
        "HUMAN WIN"
    );
    assert_eq!(
        result_text(Outcome::Win(Player::Black), Player::White),
        "MODEL WIN"
    );
    assert_eq!(result_text(Outcome::Draw, Player::Black), "DRAW");
    assert_eq!(
        result_text(Outcome::Aborted, Player::Black),
        "ABORTED (no score)"
    );
}

#[test]
fn searches_stay_within_their_nodes() {
    let board = Board::new();
    let mut searcher = Searcher::new(AlphaBetaConfig {
        max_depth: 8,
        max_nodes: 3,
        threat_extension_depth: 8,
    });
    assert!(matches!(
        searcher.enter(&board, 0, 0, -9, 9),
        Entry::Leaf
    ));
    match searcher.enter(&board, 2, 0, -9, 9) {
        Entry::Moves(moves, first) => {
            assert_eq!(moves.len(), ACTION_COUNT);
            assert_eq!(first, None);
        }
        _ => panic!("an empty board is searched"),
    }
    assert!(searcher.count_threat());
    assert!(!searcher.count_threat());
    assert!(matches!(
        searcher.enter(&board, 1, 0, -9, 9),
        Entry::Exhausted
    ));
    assert_eq!((searcher.nodes, searcher.threat_nodes), (3, 1));
}

#[test]
fn remembered_positions_are_known_and_make_a_line() {
    let board = Board::new();
    let mut searcher = Searcher::new(AlphaBetaConfig::default());
    let moves = vec![mv("a1"), mv("k10")];
    let mut children = MoveLoop::new(-9, 9, -9, 2, true);
    children.answer(3);
    children.answer(5);
    children.answer(5);
    assert_eq!(
        searcher.leave(&board, 2, &children, &moves),
        (5, Some(mv("k10")))
    );
    assert_eq!(searcher.beta_cutoffs, 0);
    match searcher.enter(&board, 2, 0, -9, 9) {
        Entry::Known(value, best) => assert_eq!((value, best), (5, Some(mv("k10")))),
        _ => panic!("the position was remembered"),
    }
    assert_eq!(searcher.tt_hits, 1);
    match searcher.enter(&board, 3, 0, -9, 9) {
        Entry::Moves(_, first) => assert_eq!(first, Some(mv("k10"))),
        _ => panic!("a greater depth is searched"),
    }
    assert_eq!(searcher.principal_variation(&board, 8), vec![mv("k10")]);
    assert!(searcher.principal_variation(&board, 0).is_empty());
}

#[test]
fn finished_positions_have_their_score() {
    let board = board_from_moves(&["pass", "pass"]).unwrap();
    let mut searcher = Searcher::new(AlphaBetaConfig::default());
    match searcher.enter(&board, 4, 2, -9, 9) {
        Entry::Finished(score) => assert_eq!(score, 2 - MATE_SCORE),
        _ => panic!("the game is over"),
    }
    assert!(matches!(
        enter_threat(&board, None, 2, 8, true),
        Threat::Finished(_)
    ));
}

#[test]
fn threats_are_followed_only_where_there_are_any() {
    let quiet = stones(&["d8", "e8"], &["a1"]);
    assert!(matches!(
        enter_threat(&quiet, Some(mv("e8")), 1, 8, true),
        Threat::Judge
    ));
    let four = stones(&["d8", "e8", "f8", "g8"], &["a1", "a3", "c8"]);
    match enter_threat(&four, Some(mv("g8")), 1, 8, true) {
        Threat::Block(moves) => assert_eq!(moves, vec![mv("h8")]),
        _ => panic!("the four is to be stopped"),
    }
    assert!(matches!(
        enter_threat(&four, Some(mv("g8")), 1, 0, true),
        Threat::Judge
    ));
    assert!(matches!(enter_threat(&four, None, 1, 8, true), Threat::Judge));
    let own = stones(&["d8", "e8", "f8", "g8"], &["a1", "a3", "c8", "a7"]);
    match enter_threat(&own, None, 1, 8, false) {
        Threat::Win(choice, score) => {
            assert_eq!(choice, mv("h8"));
            assert_eq!(score, MATE_SCORE - 2);
        }
        _ => panic!("the side to move wins"),
    }
}

#[test]
fn deepening_keeps_its_best_action() {
    let mut deepening = Deepening::new(&Board::new(), 3);
    assert_eq!(deepening.best, Some(mv("a1")));
    assert_eq!(deepening.next_depth(), Some(1));
    deepening.report(Some((7, Some(mv("k10")))), false);
    assert_eq!(deepening.next_depth(), Some(2));
    deepening.report(Some((8, None)), false);
    assert_eq!((deepening.value, deepening.best), (8, Some(mv("k10"))));
    deepening.report(None, false);
    assert_eq!(deepening.next_depth(), None);
    assert_eq!(deepening.completed, 2);
}

#[test]
fn walks_spend_one_visit_for_each_step() {
    let mut tree = SearchTree::new(Board::new());
    assert_eq!(reach(&tree, 0), Reach::Fresh);
    tree.expand(0, &vec![mv("a1"), Move::pass()]);
    assert_eq!(reach(&tree, 0), Reach::Open);
    for turn in 0..10usize {
        let mut walk = Walk::new();
        walk.step(&mut tree, turn % 2, true, 100);
        if turn % 2 == 1 {
            if reach(&tree, walk.at) == Reach::Fresh {
                tree.expand(walk.at, &vec![Move::pass()]);
            }
            walk.step(&mut tree, 0, true, 100);
            assert_ne!(walk.at, 0);
            assert!(matches!(reach(&tree, walk.at), Reach::Finished(_)));
        }
        walk.finish(&mut tree);
    }
    assert_eq!(tree.edges(0)[0].visits, 5);
    assert_eq!(tree.edges(0)[1].visits, 5);
    let passed = tree.edges(0)[1].child.unwrap();
    assert_eq!(tree.edges(passed)[0].visits, 5);
    assert_eq!(first_greatest(&[2, 7, 7, 1]), 1);
}
