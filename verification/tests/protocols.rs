use go19::game::{Board, Move, Player};
use go19::gomocup::{from_stones, parse_move, turn_budget_ms, BudgetError, Reaction, Session};
use go19::grid::CELL_COUNT;
use go19::gtp::{ends_session, parse_line, respond, Answer, Engine};

fn mv(text: &str) -> Move {
    Move::parse(text).unwrap()
}

fn enclosed_dead() -> Board {
    let empty = ["b2", "d2", "c5"].map(|s| mv(s).0);
    let victim = mv("c4").0;
    let stones = (0..CELL_COUNT)
        .filter(|p| !empty.contains(p))
        .map(|p| {
            (
                Move(p),
                if p == victim {
                    Player::White
                } else {
                    Player::Black
                },
            )
        })
        .collect::<Vec<_>>();
    Board::from_position(&stones, Player::Black).unwrap()
}

fn text(chars: &[char]) -> String {
    chars.iter().collect()
}

fn milli(chars: &[char]) -> Option<i32> {
    let value: f32 = text(chars).parse().ok()?;
    if value.is_finite() && value.abs() <= 1000.0 {
        Some((value * 1000.0).round() as i32)
    } else {
        None
    }
}

fn settle(engine: &mut Engine, answer: Answer) -> Result<String, String> {
    match answer {
        Answer::Done(chars) => Ok(text(&chars)),
        Answer::Refused(chars) => Err(text(&chars)),
        Answer::Komi(chars) => {
            let value = milli(&chars);
            let next = engine.finish_komi(value);
            settle(engine, next)
        }
        Answer::Search(request) => {
            let choice = request.board.search_candidates()[0];
            let next = engine.finish_search(request, choice, 0);
            settle(engine, next)
        }
    }
}

fn command(engine: &mut Engine, name: &str, args: &[&str]) -> Result<String, String> {
    let answer = engine.command(name, args);
    settle(engine, answer)
}

fn run(engine: &mut Engine, input: &str) -> String {
    let mut output = String::new();
    for line in input.lines() {
        let Some(parsed) = parse_line(line) else {
            continue;
        };
        let answer = engine.run_command(&parsed.command, &parsed.args);
        let (accepted, reply) = match settle(engine, answer) {
            Ok(reply) => (true, reply),
            Err(reply) => (false, reply),
        };
        output.push_str(&respond(&parsed.id, accepted, &reply.chars().collect()));
        if ends_session(&parsed.command, accepted) {
            break;
        }
    }
    output
}

#[test]
fn framing_comments_ids_errors_and_quit_are_protocol_only() {
    let mut engine = Engine::new("0.1.0");
    let output = run(&mut engine, "# comment\r\n1\tprotocol_version\r\n2 boardsize 9\n3 known_command play\n4 nonsense\n5 quit extra\n6 quit\n7 name\n");
    assert_eq!(
        output,
        "=1 2\n\n?2 unacceptable size\n\n=3 true\n\n?4 unknown command\n\n?5 syntax error\n\n=6\n\n"
    );
}

#[test]
fn captures_passes_out_of_turn_play_and_undo_preserve_state() {
    let mut engine = Engine::new("0.1.0");
    engine.board = enclosed_dead();
    let before = engine.board.clone();
    command(&mut engine, "play", &["b", "C5"]).unwrap();
    assert_eq!(engine.board.cells()[mv("c4").0], 0);
    command(&mut engine, "komi", &["6.5"]).unwrap();
    command(&mut engine, "undo", &[]).unwrap();
    assert_eq!(engine.board.cells(), before.cells());
    assert_eq!(engine.board.komi(), 6500);
    let unchanged = engine.board.clone();
    assert!(command(&mut engine, "play", &["white", "z99"]).is_err());
    assert!(command(&mut engine, "komi", &["NaN"]).is_err());
    assert_eq!(engine.board, unchanged);
    command(&mut engine, "clear_board", &[]).unwrap();
    command(&mut engine, "play", &["w", "D4"]).unwrap();
    assert_eq!(engine.board.cells()[mv("d4").0], -1);
    command(&mut engine, "clear_board", &[]).unwrap();
    command(&mut engine, "play", &["b", "pass"]).unwrap();
    command(&mut engine, "play", &["w", "pass"]).unwrap();
    assert_eq!(command(&mut engine, "final_score", &[]).unwrap(), "W+6.5");
    command(&mut engine, "undo", &[]).unwrap();
    assert_eq!(engine.board.consecutive_passes(), 1);
}

#[test]
fn scoring_reports_dead_and_refuses_unsettled_final_claims() {
    let mut engine = Engine::new("0.1.0");
    engine.board = enclosed_dead();
    command(&mut engine, "play", &["b", "pass"]).unwrap();
    command(&mut engine, "play", &["w", "pass"]).unwrap();
    assert_eq!(
        command(&mut engine, "final_status_list", &["dead"]).unwrap(),
        "C4"
    );
    assert_eq!(
        command(&mut engine, "final_score", &[]).unwrap(),
        "B+353.5"
    );
    command(&mut engine, "clear_board", &[]).unwrap();
    command(&mut engine, "play", &["b", "e5"]).unwrap();
    command(&mut engine, "play", &["w", "pass"]).unwrap();
    command(&mut engine, "play", &["b", "pass"]).unwrap();
    assert_eq!(
        command(&mut engine, "final_score", &[]).unwrap_err(),
        "cannot score"
    );
    assert_eq!(
        command(&mut engine, "final_status_list", &["unsettled"]).unwrap(),
        "E5"
    );
}

#[test]
fn generated_move_is_legal_and_regression_does_not_change_board() {
    let mut engine = Engine::new("0.1.0");
    command(&mut engine, "fixed_handicap", &["2"]).unwrap();
    assert_eq!(engine.board.to_move(), Player::White);
    let before = engine.board.clone();
    let predicted = command(&mut engine, "reg_genmove", &["w"]).unwrap();
    assert_eq!(engine.board, before);
    assert!(before.is_legal(mv(&predicted)));
    let generated = command(&mut engine, "genmove", &["w"]).unwrap();
    assert_eq!(generated, predicted);
    command(&mut engine, "undo", &[]).unwrap();
    assert_eq!(engine.board, before);
}

#[test]
fn clock_enters_and_renews_canadian_overtime() {
    let second: u128 = 1_000_000_000;
    let mut engine = Engine::new("0.1.0");
    command(&mut engine, "time_settings", &["10", "5", "2"]).unwrap();
    engine.consume_time(Player::Black, second);
    assert_eq!(engine.clocks.unwrap().0.remaining, 9 * second);
    engine.consume_time(Player::Black, 9 * second);
    assert_eq!(engine.clocks.unwrap().0.stones, 2);
    engine.consume_time(Player::Black, second / 2);
    engine.consume_time(Player::Black, second / 2);
    assert_eq!(engine.clocks.unwrap().0.remaining, 5 * second);
    assert_eq!(engine.clocks.unwrap().0.stones, 2);
}

#[test]
fn ko_retake_is_rejected_and_undo_restores_ko_history() {
    let mut engine = Engine::new("0.1.0");
    let stones = ["a2", "b1", "c2"]
        .into_iter()
        .map(|s| (mv(s), Player::Black))
        .chain(
            ["b2", "a3", "c3", "b4"]
                .into_iter()
                .map(|s| (mv(s), Player::White)),
        )
        .collect::<Vec<_>>();
    engine.board = Board::from_position(&stones, Player::Black).unwrap();
    command(&mut engine, "play", &["b", "b3"]).unwrap();
    let ko = engine.board.clone();
    assert!(command(&mut engine, "play", &["w", "b2"]).is_err());
    assert_eq!(engine.board, ko);
    command(&mut engine, "play", &["w", "j9"]).unwrap();
    command(&mut engine, "undo", &[]).unwrap();
    assert_eq!(engine.board, ko);
    assert!(command(&mut engine, "play", &["w", "b2"]).is_err());
}

#[test]
fn session_reports_its_version_and_scores_an_empty_board() {
    let mut engine = Engine::new("0.1.0");
    let output = run(
        &mut engine,
        "1 protocol_version\n2 version\n3 boardsize 19\n4 undo\n5 play b i5\n6 quit\n",
    );
    assert!(output.starts_with("=1 2\n\n=2 0.1.0\n\n=3\n\n?4 cannot undo\n\n?5 "));
    assert!(output.ends_with("=6\n\n"));
}

#[test]
fn protocol_coordinates_are_column_then_row() {
    let parsed = parse_move("4,12").unwrap();
    assert_eq!(parsed.col(), 4);
    assert_eq!(parsed.row(), 12);
    assert!(parse_move("15,0").is_none());
    assert!(parse_move("broken").is_none());
    assert_eq!(parse_move("0,15").unwrap().row(), 15);
    assert_eq!(parse_move(" 14 , 18 ").unwrap().row(), 18);
    assert!(parse_move("0,19").is_none());
    assert_eq!(parse_move("16,0").unwrap().col(), 16);
    assert_eq!(parse_move("18,18").unwrap().col(), 18);
    assert!(parse_move("19,0").is_none());
}

#[test]
fn turn_budget_respects_turn_and_match_limits() {
    assert!(turn_budget_ms(0, Some(10_000), 0).is_err());
    assert_eq!(turn_budget_ms(5_000, None, 0).unwrap(), 5_000);
    assert!(turn_budget_ms(5_000, Some(10_000), 0).unwrap() < 5_000);
    assert!(turn_budget_ms(5_000, Some(0), 0).is_err());
}

#[test]
fn turn_budget_errors_tell_what_ran_out() {
    assert!(matches!(
        turn_budget_ms(0, None, 0),
        Err(BudgetError::NoTurnTime)
    ));
    assert!(matches!(
        turn_budget_ms(1_000, Some(0), 0),
        Err(BudgetError::NoTimeLeft)
    ));
}

#[test]
fn stones_of_a_session_are_played_in_turn() {
    let stones = [(mv("a1"), Player::Black), (mv("b1"), Player::White)];
    let board = from_stones(&stones).unwrap();
    assert_eq!(board.to_move(), Player::Black);
    assert_eq!(board.cells()[0], 1);
    assert_eq!(board.cells()[1], -1);
}

#[test]
fn session_answers_about_and_stops_at_the_end() {
    let mut session = Session::new();
    assert!(matches!(session.line("ABOUT"), Reaction::Say(_)));
    assert!(matches!(session.line("END"), Reaction::Stop));
}

#[test]
fn session_answers_every_command_until_it_ends() {
    let mut engine = Engine::new("1");
    let output = run(&mut engine, "1 protocol_version\n2 boardsize 19\n3 komi 6.5\n4 play b T19\n5 reg_genmove w\n6 genmove w\n7 undo\n8 clear_board\n9 play b pass\n10 play w pass\n11 final_score\n12 quit\n13 name\n");
    let responses = output.trim_end().split("\n\n").collect::<Vec<_>>();
    assert_eq!(responses.len(), 12, "{output}");
    for (i, response) in responses.iter().enumerate() {
        assert!(response.starts_with(&format!("={}", i + 1)), "{output}");
    }
    assert_eq!(responses[0], "=1 2");
    assert_eq!(responses[10], "=11 W+6.5");
    assert_eq!(
        responses[4].strip_prefix("=5 "),
        responses[5].strip_prefix("=6 ")
    );
}
