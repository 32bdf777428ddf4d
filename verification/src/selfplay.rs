//! Games that a model plays against itself or another: the record of a game,
//! its labels, and the counts that games are summed up in.
use crate::game::{Board, BoardView, Move, Outcome, Player, MAX_MOVES};
use crate::gtp::board_views;
use crate::scoring::outcome_of;
use crate::verdict::{law_leads_are_opposed, law_the_winner_has_more_points, lead_of};
use vstd::prelude::*;

verus! {

/// The value of a finished game for a side: 1 if it won, -1 if it lost, else
/// 0.
pub open spec fn value_for(outcome: Option<Outcome>, player: Player) -> int {
    match outcome {
        Some(Outcome::Win(winner)) => if winner == player {
            1
        } else {
            -1
        },
        _ => 0,
    }
}

pub fn game_value(outcome: Option<Outcome>, player: Player) -> (result: i8)
    ensures
        result == value_for(outcome, player),
{
    match outcome {
        Some(Outcome::Win(winner)) => if winner == player {
            1
        } else {
            -1
        },
        _ => 0,
    }
}

/// What one side wins the other loses.
pub proof fn law_values_are_opposed(outcome: Option<Outcome>, player: Player)
    ensures
        value_for(outcome, player.opponent()) == -value_for(outcome, player),
{
}

/// The moves that a game of `length` moves still has at place `index`, and at
/// least one.
pub open spec fn moves_to_go(length: int, index: int) -> int {
    if length - index > 1 {
        length - index
    } else {
        1
    }
}

pub fn moves_left(length: usize, index: usize) -> (result: usize)
    ensures
        result == moves_to_go(length as int, index as int),
{
    if length > index && length - index > 1 {
        length - index
    } else {
        1
    }
}

/// A game under way: the board, and the positions that moves were chosen in.
pub struct GameRecord {
    pub board: Board,
    pub positions: Vec<Board>,
}

/// What a position of a finished game is labelled with.
#[derive(Clone, Copy, Debug, PartialEq, Eq, Structural)]
pub struct Label {
    pub value: i8,
    pub moves_left: usize,
}

/// The game was played to its end: not given up, nor still under way.
pub open spec fn decided(outcome: Option<Outcome>) -> bool {
    match outcome {
        Some(Outcome::Win(_)) => true,
        Some(Outcome::Draw) => true,
        _ => false,
    }
}

pub fn is_decided(outcome: Option<Outcome>) -> (result: bool)
    ensures
        result == decided(outcome),
{
    match outcome {
        Some(Outcome::Win(_)) => true,
        Some(Outcome::Draw) => true,
        _ => false,
    }
}

/// The labels of the positions of a game; none if it was not decided.
pub open spec fn labels_of(positions: Seq<BoardView>, outcome: Option<Outcome>) -> Seq<Label> {
    Seq::new(
        if decided(outcome) {
            positions.len()
        } else {
            0
        },
        |i: int|
            Label {
                value: value_for(outcome, positions[i].to_move) as i8,
                moves_left: moves_to_go(positions.len() as int, i) as usize,
            },
    )
}

impl GameRecord {
    pub open spec fn wf(self) -> bool {
        self.board@.wf()
    }

    /// A game that starts from a position.
    pub fn new(board: Board) -> (result: GameRecord)
        ensures
            result.board == board,
            board_views(result.positions@) == Seq::<BoardView>::empty(),
    {
        let positions: Vec<Board> = Vec::new();
        assert(board_views(positions@) =~= Seq::<BoardView>::empty());
        GameRecord { board, positions }
    }

    /// Whether a move is still to be chosen.
    pub fn is_open(&self) -> (result: bool)
        requires
            self.wf(),
        ensures
            result == (outcome_of(self.board@) is None),
    {
        self.board.outcome().is_none()
    }

    /// Records the position and plays the chosen move. An illegal move leaves
    /// the board as it is.
    pub fn play(&mut self, mv: Move) -> (legal: bool)
        requires
            old(self).wf(),
        ensures
            final(self).wf(),
            legal == old(self).board@.legal(mv),
            final(self).board@ == (if legal {
                old(self).board@.played(mv)
            } else {
                old(self).board@
            }),
            board_views(final(self).positions@) == board_views(old(self).positions@).push(
                old(self).board@,
            ),
    {
        let position: Board = self.board.clone();
        let ghost before = self.positions@;
        self.positions.push(position);
        assert(board_views(self.positions@) =~= board_views(before).push(position@));
        self.board.play(mv)
    }

    /// The labels of the recorded positions by how the game ended. A game that
    /// was not decided has none.
    pub fn labels(&self) -> (result: Vec<Label>)
        requires
            self.wf(),
        ensures
            result@ == labels_of(board_views(self.positions@), outcome_of(self.board@)),
    {
        let outcome: Option<Outcome> = self.board.outcome();
        let mut result: Vec<Label> = Vec::new();
        let ghost all = labels_of(board_views(self.positions@), outcome);
        if !is_decided(outcome) {
            assert(result@ =~= all);
            return result;
        }
        let mut i: usize = 0;
        while i < self.positions.len()
            invariant
                i <= self.positions@.len(),
                decided(outcome),
                all == labels_of(board_views(self.positions@), outcome),
                result@ == all.take(i as int),
            decreases self.positions@.len() - i,
        {
            let player: Player = self.positions[i].to_move();
            result.push(
                Label {
                    value: game_value(outcome, player),
                    moves_left: moves_left(self.positions.len(), i),
                },
            );
            assert(board_views(self.positions@)[i as int] == self.positions@[i as int]@);
            assert(result@ =~= all.take(i + 1));
            i = i + 1;
        }
        assert(all.take(all.len() as int) =~= all);
        result
    }
}

/// The visits of a search.
pub open spec fn visit_sum(visits: Seq<u32>) -> nat
    decreases visits.len(),
{
    if visits.len() == 0 {
        0
    } else {
        visit_sum(visits.drop_last()) + visits.last() as nat
    }
}

/// How many actions were visited.
pub open spec fn visited(visits: Seq<u32>) -> nat
    decreases visits.len(),
{
    if visits.len() == 0 {
        0
    } else if visits.last() > 0 {
        visited(visits.drop_last()) + 1
    } else {
        visited(visits.drop_last())
    }
}

/// The visits of a search, and how many actions had one.
pub fn count_visits(visits: &[u32]) -> (result: (u64, usize))
    requires
        visits@.len() <= 0x1_0000_0000,
    ensures
        result.0 == visit_sum(visits@),
        result.1 == visited(visits@),
{
    let mut sum: u64 = 0;
    let mut seen: usize = 0;
    let mut i: usize = 0;
    while i < visits.len()
        invariant
            i <= visits@.len() <= 0x1_0000_0000,
            sum == visit_sum(visits@.take(i as int)),
            sum <= i * 0xffff_ffff,
            seen == visited(visits@.take(i as int)),
            seen <= i,
        decreases visits@.len() - i,
    {
        proof {
            let more = visits@.take(i + 1);
            assert(more.drop_last() =~= visits@.take(i as int));
            assert(i * 0xffff_ffff <= 0xffff_ffff * 0xffff_ffff) by (nonlinear_arith)
                requires
                    i < 0x1_0000_0000,
            ;
        }
        sum = sum + visits[i] as u64;
        if visits[i] > 0 {
            seen = seen + 1;
        }
        i = i + 1;
    }
    assert(visits@.take(visits@.len() as int) =~= visits@);
    (sum, seen)
}

/// The counts that games are summed up in.
#[derive(Clone, Copy, Debug, PartialEq, Eq, Structural)]
pub struct SelfplayStats {
    pub games: usize,
    pub black_wins: usize,
    pub white_wins: usize,
    pub draws: usize,
    pub aborted: usize,
    pub plies: usize,
    pub searches: usize,
    pub simulations: usize,
    pub visited_actions_sum: usize,
    pub sampled_moves: usize,
    pub sampled_best_moves: usize,
}

/// The counts of no games.
pub open spec fn no_stats() -> SelfplayStats {
    SelfplayStats {
        games: 0,
        black_wins: 0,
        white_wins: 0,
        draws: 0,
        aborted: 0,
        plies: 0,
        searches: 0,
        simulations: 0,
        visited_actions_sum: 0,
        sampled_moves: 0,
        sampled_best_moves: 0,
    }
}

impl Default for SelfplayStats {
    fn default() -> (result: SelfplayStats)
        ensures
            result == no_stats(),
    {
        SelfplayStats {
            games: 0,
            black_wins: 0,
            white_wins: 0,
            draws: 0,
            aborted: 0,
            plies: 0,
            searches: 0,
            simulations: 0,
            visited_actions_sum: 0,
            sampled_moves: 0,
            sampled_best_moves: 0,
        }
    }
}

impl SelfplayStats {
    /// Each game ended in one way.
    pub open spec fn balanced(self) -> bool {
        self.games == self.black_wins + self.white_wins + self.draws + self.aborted
    }

    /// No count of the sum is too great.
    pub open spec fn addable(self, other: SelfplayStats) -> bool {
        &&& self.games + other.games <= usize::MAX
        &&& self.black_wins + other.black_wins <= usize::MAX
        &&& self.white_wins + other.white_wins <= usize::MAX
        &&& self.draws + other.draws <= usize::MAX
        &&& self.aborted + other.aborted <= usize::MAX
        &&& self.plies + other.plies <= usize::MAX
        &&& self.searches + other.searches <= usize::MAX
        &&& self.simulations + other.simulations <= usize::MAX
        &&& self.visited_actions_sum + other.visited_actions_sum <= usize::MAX
        &&& self.sampled_moves + other.sampled_moves <= usize::MAX
        &&& self.sampled_best_moves + other.sampled_best_moves <= usize::MAX
    }

    pub open spec fn plus(self, other: SelfplayStats) -> SelfplayStats {
        SelfplayStats {
            games: (self.games + other.games) as usize,
            black_wins: (self.black_wins + other.black_wins) as usize,
            white_wins: (self.white_wins + other.white_wins) as usize,
            draws: (self.draws + other.draws) as usize,
            aborted: (self.aborted + other.aborted) as usize,
            plies: (self.plies + other.plies) as usize,
            searches: (self.searches + other.searches) as usize,
            simulations: (self.simulations + other.simulations) as usize,
            visited_actions_sum: (self.visited_actions_sum + other.visited_actions_sum) as usize,
            sampled_moves: (self.sampled_moves + other.sampled_moves) as usize,
            sampled_best_moves: (self.sampled_best_moves + other.sampled_best_moves) as usize,
        }
    }

    /// Adds the counts of other games.
    pub fn add_assign(&mut self, other: &SelfplayStats)
        requires
            old(self).addable(*other),
        ensures
            *final(self) == old(self).plus(*other),
            old(self).balanced() && other.balanced() ==> final(self).balanced(),
    {
        self.games = self.games + other.games;
        self.black_wins = self.black_wins + other.black_wins;
        self.white_wins = self.white_wins + other.white_wins;
        self.draws = self.draws + other.draws;
        self.aborted = self.aborted + other.aborted;
        self.plies = self.plies + other.plies;
        self.searches = self.searches + other.searches;
        self.simulations = self.simulations + other.simulations;
        self.visited_actions_sum = self.visited_actions_sum + other.visited_actions_sum;
        self.sampled_moves = self.sampled_moves + other.sampled_moves;
        self.sampled_best_moves = self.sampled_best_moves + other.sampled_best_moves;
    }

    /// The counts with how a game ended and how long it was. A game that was
    /// not decided is no draw.
    pub open spec fn closed_with(self, outcome: Option<Outcome>, plies: usize) -> SelfplayStats {
        SelfplayStats {
            plies,
            black_wins: if outcome == Some(Outcome::Win(Player::Black)) {
                1
            } else {
                self.black_wins
            },
            white_wins: if outcome == Some(Outcome::Win(Player::White)) {
                1
            } else {
                self.white_wins
            },
            draws: if outcome == Some(Outcome::Draw) {
                1
            } else {
                self.draws
            },
            aborted: if !decided(outcome) {
                1
            } else {
                self.aborted
            },
            ..self
        }
    }

    /// Counts a game: how it ended and how long it was.
    pub fn close(&mut self, outcome: Option<Outcome>, plies: usize)
        ensures
            *final(self) == old(self).closed_with(outcome, plies),
    {
        self.plies = plies;
        match outcome {
            Some(Outcome::Win(Player::Black)) => {
                self.black_wins = 1;
            },
            Some(Outcome::Win(Player::White)) => {
                self.white_wins = 1;
            },
            Some(Outcome::Draw) => {
                self.draws = 1;
            },
            _ => {
                self.aborted = 1;
            },
        }
    }
}

/// The results of games between a candidate and a baseline.
#[derive(Clone, Copy, Debug, PartialEq, Eq, Structural)]
pub struct ArenaReport {
    pub wins: usize,
    pub losses: usize,
    pub draws: usize,
    pub aborted: usize,
    pub wins_as_black: usize,
    pub losses_as_black: usize,
    pub draws_as_black: usize,
    pub wins_as_white: usize,
    pub losses_as_white: usize,
    pub draws_as_white: usize,
}

/// A report of no games.
pub open spec fn no_games() -> ArenaReport {
    ArenaReport {
        wins: 0,
        losses: 0,
        draws: 0,
        aborted: 0,
        wins_as_black: 0,
        losses_as_black: 0,
        draws_as_black: 0,
        wins_as_white: 0,
        losses_as_white: 0,
        draws_as_white: 0,
    }
}

impl Default for ArenaReport {
    fn default() -> (result: ArenaReport)
        ensures
            result == no_games(),
    {
        ArenaReport {
            wins: 0,
            losses: 0,
            draws: 0,
            aborted: 0,
            wins_as_black: 0,
            losses_as_black: 0,
            draws_as_black: 0,
            wins_as_white: 0,
            losses_as_white: 0,
            draws_as_white: 0,
        }
    }
}

/// The report of one game. A game that was not decided counts as lost, so
/// that none helps a candidate.
pub open spec fn report_of(outcome: Option<Outcome>, candidate_black: bool) -> ArenaReport {
    let candidate = if candidate_black {
        Player::Black
    } else {
        Player::White
    };
    let value = value_for(outcome, candidate);
    if !decided(outcome) {
        if candidate_black {
            ArenaReport { losses: 1, aborted: 1, losses_as_black: 1, ..no_games() }
        } else {
            ArenaReport { losses: 1, aborted: 1, losses_as_white: 1, ..no_games() }
        }
    } else if value == 1 {
        if candidate_black {
            ArenaReport { wins: 1, wins_as_black: 1, ..no_games() }
        } else {
            ArenaReport { wins: 1, wins_as_white: 1, ..no_games() }
        }
    } else if value == -1 {
        if candidate_black {
            ArenaReport { losses: 1, losses_as_black: 1, ..no_games() }
        } else {
            ArenaReport { losses: 1, losses_as_white: 1, ..no_games() }
        }
    } else if candidate_black {
        ArenaReport { draws: 1, draws_as_black: 1, ..no_games() }
    } else {
        ArenaReport { draws: 1, draws_as_white: 1, ..no_games() }
    }
}

impl ArenaReport {
    /// Each result came with one of the colors.
    pub open spec fn balanced(self) -> bool {
        &&& self.wins == self.wins_as_black + self.wins_as_white
        &&& self.losses == self.losses_as_black + self.losses_as_white
        &&& self.draws == self.draws_as_black + self.draws_as_white
        &&& self.aborted <= self.losses
    }

    pub open spec fn total(self) -> int {
        self.wins + self.losses + self.draws
    }

    pub open spec fn plus(self, other: ArenaReport) -> ArenaReport {
        ArenaReport {
            wins: (self.wins + other.wins) as usize,
            losses: (self.losses + other.losses) as usize,
            draws: (self.draws + other.draws) as usize,
            aborted: (self.aborted + other.aborted) as usize,
            wins_as_black: (self.wins_as_black + other.wins_as_black) as usize,
            losses_as_black: (self.losses_as_black + other.losses_as_black) as usize,
            draws_as_black: (self.draws_as_black + other.draws_as_black) as usize,
            wins_as_white: (self.wins_as_white + other.wins_as_white) as usize,
            losses_as_white: (self.losses_as_white + other.losses_as_white) as usize,
            draws_as_white: (self.draws_as_white + other.draws_as_white) as usize,
        }
    }

    /// Number of games.
    pub fn games(self) -> (result: usize)
        requires
            self.total() <= usize::MAX,
        ensures
            result == self.total(),
    {
        self.wins + self.losses + self.draws
    }

    /// The report of one game.
    pub fn of_game(outcome: Option<Outcome>, candidate_black: bool) -> (result: ArenaReport)
        ensures
            result == report_of(outcome, candidate_black),
            result.balanced(),
            result.total() == 1,
    {
        let candidate: Player = if candidate_black {
            Player::Black
        } else {
            Player::White
        };
        let value: i8 = game_value(outcome, candidate);
        let lost: bool = !is_decided(outcome) || value == -1;
        let mut report: ArenaReport = ArenaReport::default();
        if !is_decided(outcome) {
            report.aborted = 1;
        }
        if value == 1 {
            report.wins = 1;
            if candidate_black {
                report.wins_as_black = 1;
            } else {
                report.wins_as_white = 1;
            }
        } else if lost {
            report.losses = 1;
            if candidate_black {
                report.losses_as_black = 1;
            } else {
                report.losses_as_white = 1;
            }
        } else {
            report.draws = 1;
            if candidate_black {
                report.draws_as_black = 1;
            } else {
                report.draws_as_white = 1;
            }
        }
        report
    }

    /// The report of both sets of games.
    pub fn merge(self, other: ArenaReport) -> (result: ArenaReport)
        requires
            self.balanced(),
            other.balanced(),
            self.total() + other.total() <= usize::MAX,
        ensures
            result == self.plus(other),
            result.balanced(),
            result.total() == self.total() + other.total(),
    {
        ArenaReport {
            wins: self.wins + other.wins,
            losses: self.losses + other.losses,
            draws: self.draws + other.draws,
            aborted: self.aborted + other.aborted,
            wins_as_black: self.wins_as_black + other.wins_as_black,
            losses_as_black: self.losses_as_black + other.losses_as_black,
            draws_as_black: self.draws_as_black + other.draws_as_black,
            wins_as_white: self.wins_as_white + other.wins_as_white,
            losses_as_white: self.losses_as_white + other.losses_as_white,
            draws_as_white: self.draws_as_white + other.draws_as_white,
        }
    }
}

/// The sum of the reports of the first `n` games; the candidate is black in
/// every second game, from the first on.
pub open spec fn arena_total(outcomes: Seq<Option<Outcome>>, n: nat) -> ArenaReport
    decreases n,
{
    if n == 0 {
        no_games()
    } else {
        arena_total(outcomes, (n - 1) as nat).plus(
            report_of(outcomes[n - 1], (n - 1) % 2 == 0),
        )
    }
}

/// The report of an arena whose games ended so.
pub fn arena_report(outcomes: &[Option<Outcome>]) -> (report: ArenaReport)
    ensures
        report == arena_total(outcomes@, outcomes@.len()),
        report.balanced(),
        report.total() == outcomes@.len(),
{
    let mut report: ArenaReport = ArenaReport::default();
    let mut i: usize = 0;
    while i < outcomes.len()
        invariant
            i <= outcomes@.len(),
            report == arena_total(outcomes@, i as nat),
            report.balanced(),
            report.total() == i,
        decreases outcomes@.len() - i,
    {
        let game: ArenaReport = ArenaReport::of_game(outcomes[i], i % 2 == 0);
        report = report.merge(game);
        i = i + 1;
    }
    report
}

/// The candidate is to move.
pub open spec fn is_candidates_turn(board: BoardView, candidate_black: bool) -> bool {
    (board.to_move == Player::Black) == candidate_black
}

/// Whether the candidate is to move.
pub fn candidate_turn(board: &Board, candidate_black: bool) -> (result: bool)
    ensures
        result == is_candidates_turn(board@, candidate_black),
{
    (board.to_move() == Player::Black) == candidate_black
}

/// In a game that one side won, a position in which it was to move is labelled
/// 1 and one of the other side -1; in a drawn game every position is labelled
/// 0. A game that was not decided has no labels.
pub proof fn law_labels_tell_the_winner(
    positions: Seq<BoardView>,
    outcome: Option<Outcome>,
    winner: Player,
    i: int,
)
    requires
        0 <= i < positions.len(),
    ensures
        outcome == Some(Outcome::Win(winner)) ==> {
            let labels = labels_of(positions, outcome);
            &&& labels.len() == positions.len()
            &&& positions[i].to_move == winner ==> labels[i].value == 1
            &&& positions[i].to_move == winner.opponent() ==> labels[i].value == -1
        },
        outcome == Some(Outcome::Draw) ==> {
            let labels = labels_of(positions, outcome);
            labels.len() == positions.len() && labels[i].value == 0
        },
        outcome == Some(Outcome::Aborted) ==> labels_of(positions, outcome).len() == 0,
        outcome is None ==> labels_of(positions, outcome).len() == 0,
{
}

/// The labels of a finished game follow from its count: a side that has more
/// points at the end, komi included, finds its positions labelled 1, and a
/// side that has fewer -1.
pub proof fn law_labels_follow_the_count(
    positions: Seq<BoardView>,
    end: BoardView,
    player: Player,
    i: int,
)
    requires
        end.wf(),
        end.passes >= 2,
        end.moves < MAX_MOVES,
        0 <= i < positions.len(),
        positions[i].to_move == player,
    ensures
        ({
            let labels = labels_of(positions, outcome_of(end));
            &&& labels.len() == positions.len()
            &&& lead_of(end, player) > 0 ==> labels[i].value == 1
            &&& lead_of(end, player) < 0 ==> labels[i].value == -1
            &&& lead_of(end, player) == 0 ==> labels[i].value == 0
        }),
{
    law_the_winner_has_more_points(end, player);
    law_the_winner_has_more_points(end, player.opponent());
    law_leads_are_opposed(end, player);
}

/// From one move to the next the label changes its sign, since the other side
/// is to move, and one move fewer is left; one is left in the last position.
pub proof fn law_labels_alternate(positions: Seq<BoardView>, outcome: Option<Outcome>, i: int)
    requires
        decided(outcome),
        0 <= i < positions.len() <= usize::MAX,
    ensures
        ({
            let labels = labels_of(positions, outcome);
            &&& i + 1 < positions.len() && positions[i + 1].to_move
                == positions[i].to_move.opponent() ==> labels[i + 1].value == -labels[i].value
            &&& i + 1 < positions.len() ==> labels[i].moves_left == labels[i + 1].moves_left + 1
            &&& i + 1 == positions.len() ==> labels[i].moves_left == 1
        }),
{
}

/// The side that the candidate plays in a game of an arena.
pub open spec fn candidate_of(game: int) -> Player {
    if game % 2 == 0 {
        Player::Black
    } else {
        Player::White
    }
}

/// The games below `n` that the candidate won.
pub open spec fn won_games(outcomes: Seq<Option<Outcome>>, n: nat) -> Set<int> {
    Set::new(|i: int| 0 <= i < n && outcomes[i] == Some(Outcome::Win(candidate_of(i))))
}

/// The games below `n` that were drawn.
pub open spec fn drawn_games(outcomes: Seq<Option<Outcome>>, n: nat) -> Set<int> {
    Set::new(|i: int| 0 <= i < n && outcomes[i] == Some(Outcome::Draw))
}

/// The games below `n` that were given up or not finished.
pub open spec fn open_games(outcomes: Seq<Option<Outcome>>, n: nat) -> Set<int> {
    Set::new(
        |i: int| 0 <= i < n && (outcomes[i] is None || outcomes[i] == Some(Outcome::Aborted)),
    )
}

/// An arena counts as won the games that the candidate won with the color it
/// had, as drawn those that were drawn, and everything else as lost, games
/// that were not decided among it.
pub proof fn law_arenas_count_results(outcomes: Seq<Option<Outcome>>, n: nat)
    requires
        n <= outcomes.len() <= usize::MAX,
    ensures
        ({
            let report = arena_total(outcomes, n);
            &&& won_games(outcomes, n).finite()
            &&& drawn_games(outcomes, n).finite()
            &&& open_games(outcomes, n).finite()
            &&& report.wins == won_games(outcomes, n).len()
            &&& report.draws == drawn_games(outcomes, n).len()
            &&& report.aborted == open_games(outcomes, n).len()
            &&& report.aborted <= report.losses
            &&& report.wins + report.draws + report.losses == n
        }),
    decreases n,
{
    if n == 0 {
        assert(won_games(outcomes, 0) =~= Set::<int>::empty());
        assert(drawn_games(outcomes, 0) =~= Set::<int>::empty());
        assert(open_games(outcomes, 0) =~= Set::<int>::empty());
    } else {
        let m = (n - 1) as nat;
        law_arenas_count_results(outcomes, m);
        let last = outcomes[n - 1];
        if last == Some(Outcome::Win(candidate_of(n - 1))) {
            assert(won_games(outcomes, n) =~= won_games(outcomes, m).insert(n - 1));
        } else {
            assert(won_games(outcomes, n) =~= won_games(outcomes, m));
        }
        if last == Some(Outcome::Draw) {
            assert(drawn_games(outcomes, n) =~= drawn_games(outcomes, m).insert(n - 1));
        } else {
            assert(drawn_games(outcomes, n) =~= drawn_games(outcomes, m));
        }
        if last is None || last == Some(Outcome::Aborted) {
            assert(open_games(outcomes, n) =~= open_games(outcomes, m).insert(n - 1));
        } else {
            assert(open_games(outcomes, n) =~= open_games(outcomes, m));
        }
    }
}

/// A game that is counted from nothing counts once, with the result that it
/// had: as won by the winner, as drawn, or as given up.
pub proof fn law_a_closed_game_counts_once(outcome: Option<Outcome>, winner: Player, plies: usize)
    ensures
        ({
            let one = no_stats().closed_with(outcome, plies);
            &&& one.black_wins + one.white_wins + one.draws + one.aborted == 1
            &&& one.plies == plies
            &&& outcome == Some(Outcome::Win(winner)) ==> (if winner == Player::Black {
                one.black_wins == 1
            } else {
                one.white_wins == 1
            })
            &&& outcome == Some(Outcome::Draw) ==> one.draws == 1
            &&& outcome is None || outcome == Some(Outcome::Aborted) <==> one.aborted == 1
        }),
{
}

/// Adding counts does not depend on the order, and no games add nothing.
pub proof fn law_counts_add_up(a: SelfplayStats, b: SelfplayStats, c: SelfplayStats)
    requires
        a.addable(b),
        a.plus(b).addable(c),
        b.addable(c),
        a.addable(b.plus(c)),
    ensures
        a.plus(b) == b.plus(a),
        a.plus(b).plus(c) == a.plus(b.plus(c)),
        a.plus(no_stats()) == a,
        a.plus(b).games - a.games == b.games,
        a.plus(b).plies - a.plies == b.plies,
        a.balanced() && b.balanced() ==> a.plus(b).balanced(),
{
}

/// The candidate and the baseline take turns: after every legal action the
/// other is to move, and at every time one of the two is.
pub proof fn law_candidate_and_baseline_take_turns(board: BoardView, mv: Move, black: bool)
    requires
        board.legal(mv),
    ensures
        is_candidates_turn(board.played(mv), black) == !is_candidates_turn(board, black),
        is_candidates_turn(board, black) == !is_candidates_turn(board, !black),
        board.to_move == Player::Black ==> is_candidates_turn(board, true),
{
}

/// The actions that were visited.
pub open spec fn visited_actions(visits: Seq<u32>) -> Set<int> {
    Set::new(|i: int| 0 <= i < visits.len() && visits[i] > 0)
}

/// The count of visited actions is how many actions have a visit; the visits
/// are no fewer, and one more visit of an action makes their sum one more.
pub proof fn law_visits_are_counted(visits: Seq<u32>, e: int)
    requires
        0 <= e < visits.len(),
        visits[e] < u32::MAX,
    ensures
        visited_actions(visits).finite(),
        visited(visits) == visited_actions(visits).len(),
        visited(visits) <= visit_sum(visits),
        visit_sum(visits) == 0 <==> visited(visits) == 0,
        visit_sum(visits.update(e, (visits[e] + 1) as u32)) == visit_sum(visits) + 1,
{
    lemma_visited(visits);
    lemma_one_more(visits, e);
}

proof fn lemma_visited(visits: Seq<u32>)
    ensures
        visited_actions(visits).finite(),
        visited(visits) == visited_actions(visits).len(),
        visited(visits) <= visit_sum(visits),
        visit_sum(visits) == 0 <==> visited(visits) == 0,
    decreases visits.len(),
{
    if visits.len() == 0 {
        assert(visited_actions(visits) =~= Set::<int>::empty());
    } else {
        let before = visits.drop_last();
        lemma_visited(before);
        if visits.last() > 0 {
            assert(visited_actions(visits) =~= visited_actions(before).insert(visits.len() - 1));
        } else {
            assert(visited_actions(visits) =~= visited_actions(before));
        }
    }
}

proof fn lemma_one_more(visits: Seq<u32>, e: int)
    requires
        0 <= e < visits.len(),
        visits[e] < u32::MAX,
    ensures
        visit_sum(visits.update(e, (visits[e] + 1) as u32)) == visit_sum(visits) + 1,
    decreases visits.len(),
{
    let more = visits.update(e, (visits[e] + 1) as u32);
    if e == visits.len() - 1 {
        assert(more.drop_last() =~= visits.drop_last());
    } else {
        lemma_one_more(visits.drop_last(), e);
        assert(more.drop_last() =~= visits.drop_last().update(e, (visits[e] + 1) as u32));
    }
}

/// What the candidate won, lost and drew with one color is what it did in the
/// games that it had that color in: it is black in every second game, from the
/// first on.
pub proof fn law_arenas_count_by_color(outcomes: Seq<Option<Outcome>>, n: nat)
    requires
        n <= outcomes.len() <= usize::MAX,
    ensures
        ({
            let report = arena_total(outcomes, n);
            let black = Set::new(|i: int| i % 2 == 0);
            &&& won_games(outcomes, n).intersect(black).finite()
            &&& drawn_games(outcomes, n).intersect(black).finite()
            &&& report.wins_as_black == won_games(outcomes, n).intersect(black).len()
            &&& report.draws_as_black == drawn_games(outcomes, n).intersect(black).len()
            &&& report.wins_as_black + report.draws_as_black + report.losses_as_black == (n + 1) / 2
            &&& report.wins_as_white + report.draws_as_white + report.losses_as_white == n / 2
            &&& report.wins == report.wins_as_black + report.wins_as_white
            &&& report.draws == report.draws_as_black + report.draws_as_white
        }),
    decreases n,
{
    let black = Set::new(|i: int| i % 2 == 0);
    if n == 0 {
        assert(won_games(outcomes, 0).intersect(black) =~= Set::<int>::empty());
        assert(drawn_games(outcomes, 0).intersect(black) =~= Set::<int>::empty());
    } else {
        let m = (n - 1) as nat;
        law_arenas_count_by_color(outcomes, m);
        law_arenas_count_results(outcomes, m);
        let last = outcomes[n - 1];
        let won = won_games(outcomes, m).intersect(black);
        let drawn = drawn_games(outcomes, m).intersect(black);
        if (n - 1) % 2 == 0 && last == Some(Outcome::Win(candidate_of(n - 1))) {
            assert(won_games(outcomes, n).intersect(black) =~= won.insert(n - 1));
        } else {
            assert(won_games(outcomes, n).intersect(black) =~= won);
        }
        if (n - 1) % 2 == 0 && last == Some(Outcome::Draw) {
            assert(drawn_games(outcomes, n).intersect(black) =~= drawn.insert(n - 1));
        } else {
            assert(drawn_games(outcomes, n).intersect(black) =~= drawn);
        }
    }
}

} // verus!
