use go19::features::{encode, moves_from_mask, GO_PLANES};
use go19::game::{group, Board, Move, Outcome, Player, ACTION_COUNT, MAX_MOVES};
use go19::grid::{neighbors, CELL_COUNT};
use go19::moves::MoveAnalysis;
use go19::scoring::{analyze, chains, forced_capture, pass_alive};
use go19::symmetry::transform_index;

const KOMI_MILLI: i64 = 7500;

fn mv(text: &str) -> Move {
    Move::parse(text).unwrap()
}

fn position(black: &[&str], white: &[&str]) -> Board {
    let stones = black
        .iter()
        .map(|s| (mv(s), Player::Black))
        .chain(white.iter().map(|s| (mv(s), Player::White)))
        .collect::<Vec<_>>();
    Board::from_position(&stones, Player::Black).unwrap()
}

fn ko_position() -> Board {
    position(&["a2", "b1", "c2"], &["b2", "a3", "c3", "b4"])
}

fn enclosed_dead() -> Board {
    let empty = ["b2", "d2", "c5"].map(|s| mv(s).0);
    let victim = mv("c4").0;
    let stones = (0..CELL_COUNT)
        .filter(|p| !empty.contains(p))
        .map(|p| {
            (
                Move(p),
                if p == victim {
                    Player::White
                } else {
                    Player::Black
                },
            )
        })
        .collect::<Vec<_>>();
    Board::from_position(&stones, Player::Black).unwrap()
}

fn is_black(player: Player) -> bool {
    matches!(player, Player::Black)
}

fn stored(board: &Board) -> String {
    let parts = (
        board.cells().to_vec(),
        is_black(board.to_move()),
        board.move_count(),
        board.consecutive_passes(),
        board.komi(),
        board.previous_cells().to_vec(),
        board.history().clone(),
    );
    serde_json::to_string(&parts).unwrap()
}

fn restored(text: &str) -> Option<Board> {
    let parts: (Vec<i8>, bool, usize, usize, i32, Vec<i8>, Vec<Vec<i8>>) =
        serde_json::from_str(text).unwrap();
    let to_move = if parts.1 {
        Player::Black
    } else {
        Player::White
    };
    Board::from_parts(
        parts.0, to_move, parts.2, parts.3, parts.4, parts.5, parts.6,
    )
}

#[test]
fn captures_top_right_corner_above_bit_128() {
    let mut board = position(&["s19"], &["t19"]);
    let analysis = MoveAnalysis::new(&chains(board.cells()));
    let info = analysis
        .placement(&board, mv("t18"), Player::Black)
        .unwrap();
    assert_eq!(info.captured_count(), 1);
    assert!(info.captures(360));
    assert!(board.play(mv("t18")));
    assert_eq!(board.cells()[360], 0);
    assert_eq!(Move::pass().0, 361);
}

#[test]
fn rejects_nine_by_nine_serialized_board() {
    let board = Board::new();
    let small = Board::from_parts(
        vec![0i8; 81],
        Player::Black,
        0,
        0,
        7500,
        board.previous_cells().to_vec(),
        board.history().clone(),
    );
    assert!(small.is_none());
    let old_history = Board::from_parts(
        board.cells().to_vec(),
        Player::Black,
        0,
        0,
        7500,
        board.previous_cells().to_vec(),
        vec![vec![0i8; 81]],
    );
    assert!(old_history.is_none());
}

#[test]
fn bitset_candidates_match_reference_placement() {
    let mut rng = 719u64;
    for _ in 0..12 {
        let mut board = Board::new();
        for _ in 0..180 {
            let analysis = MoveAnalysis::new(&chains(board.cells()));
            for player in [Player::Black, Player::White] {
                for point in 0..CELL_COUNT {
                    let reference = board.placed_for(Move(point), player);
                    let actual = analysis.placement(&board, Move(point), player);
                    assert_eq!(
                        actual.is_some(),
                        reference.is_some(),
                        "point={}, board={}",
                        point,
                        board.to_text()
                    );
                    if let Some(after) = reference {
                        let actual = actual.unwrap();
                        for p in 0..CELL_COUNT {
                            let captured = board.cells()[p] != 0 && after[p] == 0;
                            assert_eq!(actual.captures(p), captured);
                        }
                        let mut liberties = [false; CELL_COUNT];
                        for p in group(&after, point).0 {
                            let around = neighbors(p);
                            for n in &around.points[..around.len] {
                                if after[*n] == 0 {
                                    liberties[*n] = true;
                                }
                            }
                        }
                        assert_eq!(
                            actual.liberties,
                            liberties.iter().filter(|&&v| v).count()
                        );
                    }
                }
            }
            let moves = board.rule_legal_moves();
            if moves.is_empty() {
                break;
            }
            rng ^= rng << 13;
            rng ^= rng >> 7;
            rng ^= rng << 17;
            assert!(board.play(moves[rng as usize % moves.len()]));
        }
    }
}

#[test]
fn captures_connected_group_and_rejects_suicide_without_mutation() {
    let mut board = position(&["a2", "b1", "c1", "d2", "b3"], &["b2", "c2"]);
    assert!(board.play(mv("c3")));
    assert_eq!(board.cells()[mv("b2").0], 0);
    assert_eq!(board.cells()[mv("c2").0], 0);
    let mut suicide = position(&[], &["b1", "a2"]);
    let before = suicide.clone();
    assert!(!suicide.play(mv("a1")));
    assert_eq!(suicide, before);
    assert!(!suicide.is_legal(Move(ACTION_COUNT)));
}

#[test]
fn ko_history_survives_symmetry_and_serialization() {
    let mut board = ko_position();
    assert!(board.play(mv("b3")));
    assert!(!board.is_legal(mv("b2")));
    // Without its history the same position allows the recapture.
    let stones = board
        .cells()
        .iter()
        .enumerate()
        .filter(|(_, &s)| s != 0)
        .map(|(i, &s)| {
            (
                Move(i),
                if s == 1 {
                    Player::Black
                } else {
                    Player::White
                },
            )
        })
        .collect::<Vec<_>>();
    assert!(Board::from_position(&stones, Player::White)
        .unwrap()
        .is_legal(mv("b2")));
    let restored = restored(&stored(&board)).unwrap();
    assert_eq!(restored, board);
    for symmetry in 0..8 {
        let transformed = restored.transformed(symmetry);
        assert!(!transformed.is_legal(Move(transform_index(mv("b2").0, symmetry))));
        assert_eq!(transform_index(Move::pass().0, symmetry), Move::pass().0);
    }
}

#[test]
fn passes_end_game_and_placement_resets_pass_count() {
    let mut board = Board::new();
    assert_eq!(board.rule_legal_moves().len(), ACTION_COUNT);
    assert!(board.play(Move::pass()));
    assert!(board.play(mv("e5")));
    assert_eq!(board.consecutive_passes(), 0);
    assert!(board.play(Move::pass()));
    assert!(board.play(Move::pass()));
    assert_eq!(board.outcome(), Some(Outcome::Win(Player::White)));
    assert!(board.rule_legal_moves().is_empty());
    assert!(!board.play(Move::pass()));
}

#[test]
fn area_counts_stones_territory_and_neutral_regions() {
    assert_eq!(Board::new().score(), -KOMI_MILLI);
    assert_eq!(
        position(&["e5"], &[]).score(),
        CELL_COUNT as i64 * 1000 - KOMI_MILLI
    );
    assert_eq!(position(&["a1"], &["j9"]).score(), -KOMI_MILLI);
    let row = position(&["a1", "b1", "c1", "d1", "e1"], &[]);
    assert_eq!(row.outcome(), None);
    let mut board = Board::from_parts(
        row.cells().to_vec(),
        row.to_move(),
        MAX_MOVES - 1,
        row.consecutive_passes(),
        row.komi(),
        row.previous_cells().to_vec(),
        row.history().clone(),
    )
    .unwrap();
    assert!(board.play(Move::pass()));
    assert_eq!(board.outcome(), Some(Outcome::Aborted));
}

#[test]
fn coordinates_skip_i_and_roundtrip_all_actions() {
    for index in 0..ACTION_COUNT {
        assert_eq!(Move::parse(&Move(index).notation()), Some(Move(index)));
    }
    for text in ["i1", "a0", "a20", "u1", "中1", "@1", ""] {
        assert!(Move::parse(text).is_none());
    }
}

#[test]
fn komi_is_bounded_either_way() {
    let mut board = Board::new();
    assert_eq!(board.komi(), 7500);
    assert!(board.set_komi(-1_000_000));
    assert_eq!(board.komi(), -1_000_000);
    assert!(!board.set_komi(1_000_001));
    assert_eq!(board.komi(), -1_000_000);
}

#[test]
fn stones_without_liberties_make_no_position() {
    let black = (mv("a1"), Player::Black);
    let white = [(mv("a2"), Player::White), (mv("b1"), Player::White)];
    assert!(Board::from_position(&[black, white[0], white[1]], Player::Black).is_none());
    assert!(Board::from_position(&[black, black], Player::Black).is_none());
    assert!(Board::from_position(&[(Move(361), Player::White)], Player::Black).is_none());
    assert!(Board::from_position(&[black, white[0]], Player::White).is_some());
}

#[test]
fn drawing_shows_stones_and_side() {
    let text = position(&["a1"], &["t19"]).to_text();
    let lines = text.lines().collect::<Vec<_>>();
    assert_eq!(lines[0], "   A B C D E F G H J K L M N O P Q R S T ");
    assert!(lines[1].starts_with("19 ") && lines[1].ends_with("○ "));
    assert!(lines[19].starts_with(" 1 ● "));
}

#[test]
fn proves_enclosed_dead_without_removing_live_chain() {
    let board = enclosed_dead();
    let result = analyze(&board);
    assert_eq!(result.dead, vec![vec![mv("c4")]]);
    assert_eq!(result.alive.len(), 1);
    assert!(result.unsettled.is_empty());
    assert_eq!(result.score, CELL_COUNT as i64 * 1000 - board.komi() as i64);
    assert!(result.score > board.raw_score());
    assert_eq!(board.cells()[mv("c4").0], -1);
    for symmetry in 0..8 {
        let other = analyze(&board.transformed(symmetry));
        assert_eq!(other.score, result.score);
        assert_eq!(other.dead.len(), 1);
    }
}

#[test]
fn one_eye_and_unsettled_groups_are_never_assumed_dead() {
    let eye = mv("b2").0;
    let stones = (0..CELL_COUNT)
        .filter(|&p| p != eye)
        .map(|p| (Move(p), Player::Black))
        .collect::<Vec<_>>();
    let board = Board::from_position(&stones, Player::Black).unwrap();
    assert!(pass_alive(board.cells()).iter().all(|&x| !x));
    let result = analyze(&board);
    assert!(result.dead.is_empty());
    assert_eq!(result.unsettled.len(), 1);
}

#[test]
fn recognizes_two_shared_liberty_seki_without_deleting_either_side() {
    let holes = [mv("a2").0, mv("b1").0];
    let stones = (0..CELL_COUNT)
        .filter(|p| !holes.contains(p))
        .map(|p| {
            (
                Move(p),
                if p == 0 {
                    Player::Black
                } else {
                    Player::White
                },
            )
        })
        .collect::<Vec<_>>();
    let board = Board::from_position(&stones, Player::Black).unwrap();
    let result = analyze(&board);
    assert_eq!(result.seki.len(), 2);
    assert!(result.dead.is_empty());
    assert!(result.unsettled.is_empty());
    assert_eq!(result.score, board.raw_score());
}

#[test]
fn reading_budget_exhaustion_is_unknown() {
    let board = enclosed_dead().for_reading(Player::White);
    let point = mv("c4").0;
    assert_eq!(
        forced_capture(&board, &[point], point, Player::White, 10, &mut 0),
        None
    );
}

#[test]
fn cached_legality_matches_rules_through_games() {
    for seed in 0..8 {
        let mut board = Board::new();
        for ply in 0..180 {
            for role in [Player::Black, Player::White] {
                let position = board.for_turn(role);
                let data = encode(&board, role);
                assert_eq!(
                    moves_from_mask(&position, &data[10 * CELL_COUNT..11 * CELL_COUNT]),
                    position.search_candidates()
                );
            }
            let moves = board.search_candidates();
            if moves.is_empty() {
                break;
            }
            let next = moves[(ply * 37 + seed * 13) % moves.len()];
            assert!(board.play(next));
        }
        let mut terminal = Board::new();
        terminal.play(Move::pass());
        terminal.play(Move::pass());
        let data = encode(&terminal, terminal.to_move());
        assert!(moves_from_mask(&terminal, &data[10 * CELL_COUNT..11 * CELL_COUNT]).is_empty());
    }
}

#[test]
fn encodes_liberties_captures_history_eyes_and_komi() {
    let board = enclosed_dead();
    let data = encode(&board, Player::Black);
    let victim = mv("c4").0;
    let capture = mv("c5").0;
    assert_eq!(data[3 * CELL_COUNT + victim], 1);
    assert_eq!(data[11 * CELL_COUNT + capture], 1);
    assert_eq!(data[8 * CELL_COUNT + mv("b2").0], 1);
    assert_eq!(data[GO_PLANES * CELL_COUNT], -7500);
    assert_eq!(go19::features::scale(11 * CELL_COUNT + capture), 361);
    assert_eq!(go19::features::scale(GO_PLANES * CELL_COUNT), 361_000);
    let mut after = board.clone();
    assert!(after.play(Move(capture)));
    let features = encode(&after, Player::White);
    assert_eq!(features[15 * CELL_COUNT + victim], 1);
    assert_eq!(features[17 * CELL_COUNT + victim], 1);
    assert_eq!(features[17 * CELL_COUNT + capture], 1);
    assert!(after.play(Move::pass()));
    assert_eq!(after.previous_cells(), after.cells());
}

#[test]
fn all_feature_planes_transform_with_board() {
    let board = enclosed_dead();
    let features = encode(&board, Player::White);
    for symmetry in 0..8 {
        let transformed = encode(&board.transformed(symmetry), Player::White);
        for plane in 0..GO_PLANES {
            for point in 0..CELL_COUNT {
                assert_eq!(
                    features[plane * CELL_COUNT + point],
                    transformed[plane * CELL_COUNT + transform_index(point, symmetry)],
                    "plane={}, point={}, symmetry={}",
                    plane,
                    point,
                    symmetry
                );
            }
        }
    }
}

#[test]
fn living_stones_survive_while_their_owner_passes() {
    let black = ["a2", "b2", "c2", "d2", "b1", "d1"];
    let mut board = position(&black, &["k10"]);
    let alive = pass_alive(board.cells());
    assert!(black.iter().all(|stone| alive[mv(stone).0]));
    assert!(!alive[mv("k10").0]);
    loop {
        if board.to_move() == Player::Black {
            assert!(board.play(Move::pass()));
            continue;
        }
        let next = board.rule_legal_moves()[0];
        if next == Move::pass() {
            break;
        }
        assert!(board.play(next));
        assert!(black.iter().all(|stone| board.cells()[mv(stone).0] == 1));
    }
    assert!(board.move_count() > 500);
}

#[test]
fn half_points_decide_and_whole_points_may_not() {
    let mut board = Board::new();
    assert!(board.play(Move::pass()));
    assert!(board.play(Move::pass()));
    assert_eq!(board.outcome(), Some(Outcome::Win(Player::White)));
    assert!(board.set_komi(0));
    assert_eq!(board.outcome(), Some(Outcome::Draw));
    assert!(board.set_komi(-500));
    assert_eq!(board.outcome(), Some(Outcome::Win(Player::Black)));
}
