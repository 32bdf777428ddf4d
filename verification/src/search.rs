//! The decisions of a window search: what a position comes to before its
//! children are searched, which child is searched with which window, what the
//! replies come to, and what is remembered. Scores are ordered as whole
//! numbers; those of a child are told from the parent's side.
use crate::alphabeta::{
    bound_for, bound_of, created_immediate_threat, forcing_moves, settles, table_settles, threatens,
    winning_below, would_win, wins, AlphaBetaConfig, Bound, ForcingMoves,
};
use crate::game::{Board, BoardView, Move, Outcome, Player, ACTION_COUNT};
use crate::grid::CELL_COUNT;
use crate::moves::legal_moves;
use crate::rng::{board_hash, hash_below};
use crate::scoring::outcome_of;
use std::collections::HashMap;
use vstd::prelude::*;

verus! {

broadcast use vstd::std_specs::hash::group_hash_axioms;

/// The score of a win at once.
pub const MATE_SCORE: i32 = 10_000;

/// The score of a finished game for the side to move: a win counts the more
/// the sooner it comes.
pub open spec fn finished_score(outcome: Outcome, to_move: Player, ply: int) -> int {
    match outcome {
        Outcome::Win(player) => if player == to_move {
            MATE_SCORE - ply
        } else {
            ply - MATE_SCORE
        },
        _ => 0,
    }
}

pub fn terminal_value(outcome: Outcome, to_move: Player, ply: u16) -> (result: i32)
    ensures
        result == finished_score(outcome, to_move, ply as int),
{
    match outcome {
        Outcome::Win(player) => if player == to_move {
            MATE_SCORE - ply as i32
        } else {
            ply as i32 - MATE_SCORE
        },
        _ => 0,
    }
}

/// A finished game is worth to one side what it costs the other.
pub proof fn law_finished_scores_are_opposed(outcome: Outcome, to_move: Player, ply: int)
    ensures
        finished_score(outcome, to_move.opponent(), ply) == -finished_score(outcome, to_move, ply),
{
}

/// How a move is ranked before the policy ranks it: the stored move first,
/// then those that win, then those that stop a win.
pub open spec fn class_of_move(board: BoardView, mv: Move, stored: Option<Move>) -> u8 {
    if stored == Some(mv) {
        4
    } else if wins(board, mv, board.to_move) {
        3
    } else if wins(board, mv, board.to_move.opponent()) {
        2
    } else {
        0
    }
}

pub fn move_class(board: &Board, mv: Move, stored: Option<Move>) -> (result: u8)
    requires
        board@.wf(),
    ensures
        result == class_of_move(board@, mv, stored),
{
    let first: bool = match stored {
        Some(other) => other == mv,
        None => false,
    };
    if first {
        4
    } else if would_win(board, mv, board.to_move()) {
        3
    } else if would_win(board, mv, board.to_move().other()) {
        2
    } else {
        0
    }
}

/// A reported score is true to its window: at most the lower end it bounds the
/// true score from above, at least the upper end from below, and between them
/// it is the true score.
pub open spec fn sound(reported: int, truth: int, low: int, high: int) -> bool {
    &&& reported <= low ==> truth <= reported
    &&& reported >= high ==> truth >= reported
    &&& low < reported < high ==> truth == reported
}

pub open spec fn greater(a: int, b: int) -> int {
    if a > b {
        a
    } else {
        b
    }
}

/// What is to be done next with the child in a place.
#[derive(Clone, Copy, Debug, PartialEq, Eq, Structural)]
pub enum Step {
    /// Search it with the whole window.
    Full(usize),
    /// Search it with a window just above the lower end.
    Narrow(usize),
    /// All is searched, or the rest does not matter.
    Done,
}

/// The search of the children of a position.
#[derive(Clone, Copy, Debug, PartialEq, Eq, Structural)]
pub struct MoveLoop {
    pub original: i64,
    pub alpha: i64,
    pub beta: i64,
    pub best: i64,
    pub chosen: Option<usize>,
    pub next: usize,
    pub count: usize,
    pub again: bool,
    pub narrow: bool,
}

impl MoveLoop {
    /// The lower end is the greater of the first lower end and the best score.
    pub open spec fn wf(self) -> bool {
        &&& self.next <= self.count
        &&& self.original < self.beta
        &&& self.alpha == greater(self.original as int, self.best as int)
        &&& match self.chosen {
            Some(index) => index < self.next,
            None => true,
        }
        &&& self.again ==> self.next < self.count && self.alpha < self.beta
    }

    pub open spec fn step(self) -> Step {
        if self.next >= self.count || self.alpha >= self.beta {
            Step::Done
        } else if self.narrow && self.next > 0 && !self.again {
            Step::Narrow(self.next)
        } else {
            Step::Full(self.next)
        }
    }

    /// Whether a reply asks for a search with the whole window.
    pub open spec fn repeats(self, value: int) -> bool {
        self.step() is Narrow && self.alpha < value < self.beta
    }

    /// The loop after a reply.
    pub open spec fn answered(self, value: i64) -> MoveLoop {
        if self.repeats(value as int) {
            MoveLoop { again: true, ..self }
        } else {
            MoveLoop {
                best: if value > self.best {
                    value
                } else {
                    self.best
                },
                chosen: if value > self.best {
                    Some(self.next)
                } else {
                    self.chosen
                },
                alpha: if value > self.alpha {
                    value
                } else {
                    self.alpha
                },
                next: (self.next + 1) as usize,
                again: false,
                ..self
            }
        }
    }

    /// A loop over `count` children with nothing better than `lowest` yet.
    pub fn new(alpha: i64, beta: i64, lowest: i64, count: usize, narrow: bool) -> (result: MoveLoop)
        requires
            alpha < beta,
            lowest <= alpha,
        ensures
            result.wf(),
            result.original == alpha,
            result.alpha == alpha,
            result.beta == beta,
            result.best == lowest,
            result.chosen is None,
            result.next == 0,
            result.count == count,
            !result.again,
            result.narrow == narrow,
    {
        MoveLoop {
            original: alpha,
            alpha,
            beta,
            best: lowest,
            chosen: None,
            next: 0,
            count,
            again: false,
            narrow,
        }
    }

    /// What is to be done next.
    pub fn ask(&self) -> (result: Step)
        ensures
            result == self.step(),
    {
        if self.next >= self.count || self.alpha >= self.beta {
            Step::Done
        } else if self.narrow && self.next > 0 && !self.again {
            Step::Narrow(self.next)
        } else {
            Step::Full(self.next)
        }
    }

    /// Leaves a child out that cannot be played.
    pub fn skip(&mut self)
        requires
            old(self).wf(),
            !(old(self).step() is Done),
        ensures
            final(self).wf(),
            *final(self) == (MoveLoop {
                next: (old(self).next + 1) as usize,
                again: false,
                ..*old(self)
            }),
    {
        self.next = self.next + 1;
        self.again = false;
    }

    /// Takes the score that a child was found to have in the asked window.
    pub fn answer(&mut self, value: i64)
        requires
            old(self).wf(),
            !(old(self).step() is Done),
        ensures
            final(self).wf(),
            *final(self) == old(self).answered(value),
    {
        let narrow: bool = match self.ask() {
            Step::Narrow(_) => true,
            _ => false,
        };
        if narrow && value > self.alpha && value < self.beta {
            self.again = true;
            return;
        }
        if value > self.best {
            self.best = value;
            self.chosen = Some(self.next);
        }
        if value > self.alpha {
            self.alpha = value;
        }
        self.next = self.next + 1;
        self.again = false;
    }

    /// Whether the rest was left out because the window closed.
    pub fn was_cut(&self) -> (result: bool)
        ensures
            result == (self.alpha >= self.beta),
    {
        self.alpha >= self.beta
    }
}

/// A loop starts sound: nothing is known better than the lowest score.
pub proof fn law_search_starts_sound(state: MoveLoop, lowest: int)
    requires
        state.wf(),
        state.next == 0,
        state.best == lowest,
        lowest <= state.original,
    ensures
        sound(state.best as int, lowest, state.original as int, state.beta as int),
{
}

/// Replies that are true to their windows keep the best score true to the
/// whole window: it bounds the greatest true score of the children searched so
/// far, or is that score. `above` is the upper end of a narrow window.
pub proof fn law_replies_keep_the_search_sound(
    state: MoveLoop,
    value: i64,
    truth: int,
    greatest: int,
    above: int,
)
    requires
        state.wf(),
        !(state.step() is Done),
        sound(state.best as int, greatest, state.original as int, state.beta as int),
        above > state.alpha,
        state.step() is Full ==> sound(value as int, truth, state.alpha as int, state.beta as int),
        state.step() is Narrow ==> sound(value as int, truth, state.alpha as int, above),
    ensures
        state.repeats(value as int) ==> sound(
            state.answered(value).best as int,
            greatest,
            state.original as int,
            state.beta as int,
        ),
        !state.repeats(value as int) ==> sound(
            state.answered(value).best as int,
            greater(greatest, truth),
            state.original as int,
            state.beta as int,
        ),
{
}

/// The best score is never below the lowest, and the chosen child is one that
/// was searched.
pub proof fn law_best_only_grows(state: MoveLoop, value: i64)
    requires
        state.wf(),
        !(state.step() is Done),
    ensures
        state.answered(value).best >= state.best,
        state.answered(value).alpha >= state.alpha,
        state.answered(value).next >= state.next,
        state.answered(value).next == state.next ==> state.answered(value).again && !state.again,
{
}

/// What is remembered of a position: how deep it was searched, the score,
/// what that says of the true one, and the best action.
#[derive(Clone, Copy, Debug, PartialEq, Eq, Structural)]
pub struct Stored {
    pub depth: u16,
    pub value: i64,
    pub bound: Bound,
    pub best: Option<Move>,
}

/// What a position comes to before its children are searched.
pub enum Entry {
    /// The nodes are used up.
    Exhausted,
    /// The game is over, with this score.
    Finished(i32),
    /// The depth is used up: look at the threats.
    Leaf,
    /// The score is known.
    Known(i64, Option<Move>),
    /// There is nothing to play, which counts as even.
    Stuck,
    /// These are to be searched, the remembered action first.
    Moves(Vec<Move>, Option<Move>),
}

#[verifier::ext_equal]
pub enum EntryView {
    Exhausted,
    Finished(int),
    Leaf,
    Known(i64, Option<Move>),
    Stuck,
    Moves(Seq<Move>, Option<Move>),
}

impl View for Entry {
    type V = EntryView;

    open spec fn view(&self) -> EntryView {
        match self {
            Entry::Exhausted => EntryView::Exhausted,
            Entry::Finished(score) => EntryView::Finished(*score as int),
            Entry::Leaf => EntryView::Leaf,
            Entry::Known(value, best) => EntryView::Known(*value, *best),
            Entry::Stuck => EntryView::Stuck,
            Entry::Moves(moves, first) => EntryView::Moves(moves@, *first),
        }
    }
}

/// What a position comes to where only threats are searched.
pub enum Threat {
    /// The game is over, with this score.
    Finished(i32),
    /// There is no threat: judge the position.
    Judge,
    /// The side to move wins with this action, for this score.
    Win(Move, i32),
    /// These stop the opponent.
    Block(Vec<Move>),
}

#[verifier::ext_equal]
pub enum ThreatView {
    Finished(int),
    Judge,
    Win(Move, int),
    Block(Seq<Move>),
}

impl View for Threat {
    type V = ThreatView;

    open spec fn view(&self) -> ThreatView {
        match self {
            Threat::Finished(score) => ThreatView::Finished(*score as int),
            Threat::Judge => ThreatView::Judge,
            Threat::Win(mv, score) => ThreatView::Win(*mv, *score as int),
            Threat::Block(moves) => ThreatView::Block(moves@),
        }
    }
}

/// The key that a position is remembered by.
pub open spec fn key_of(board: BoardView) -> u64 {
    hash_below(board, CELL_COUNT as nat)
}

/// The actions with which a side would win.
pub open spec fn winning(board: BoardView, player: Player) -> Seq<Move> {
    winning_below(board, player, ACTION_COUNT as nat)
}

/// The actions that a position is searched by: those that win, else those that
/// stop a win, else all.
pub open spec fn searched_moves(board: BoardView) -> Seq<Move> {
    if winning(board, board.to_move).len() > 0 {
        winning(board, board.to_move)
    } else if winning(board, board.to_move.opponent()).len() > 0 {
        winning(board, board.to_move.opponent())
    } else {
        legal_moves(board)
    }
}

/// What a position comes to where only threats are searched. `last` is the
/// action that led to it, and is asked only where `trigger` is set.
pub open spec fn threat_of(
    board: BoardView,
    last: Option<Move>,
    ply: int,
    remaining: int,
    trigger: bool,
) -> ThreatView {
    match outcome_of(board) {
        Some(outcome) => ThreatView::Finished(finished_score(outcome, board.to_move, ply)),
        None => if remaining == 0 || (trigger && !(last is Some && threatens(
            board,
            last->0,
            board.to_move.opponent(),
        ))) {
            ThreatView::Judge
        } else if winning(board, board.to_move).len() > 0 {
            ThreatView::Win(winning(board, board.to_move)[0], MATE_SCORE - (ply + 1))
        } else if winning(board, board.to_move.opponent()).len() > 0 {
            ThreatView::Block(winning(board, board.to_move.opponent()))
        } else {
            ThreatView::Judge
        },
    }
}

pub fn enter_threat(
    board: &Board,
    last: Option<Move>,
    ply: u16,
    remaining: u16,
    trigger: bool,
) -> (result: Threat)
    requires
        board@.wf(),
        last matches Some(mv) ==> mv.0 <= CELL_COUNT,
    ensures
        result@ == threat_of(board@, last, ply as int, remaining as int, trigger),
{
    match board.outcome() {
        Some(outcome) => {
            return Threat::Finished(terminal_value(outcome, board.to_move(), ply));
        },
        None => {},
    }
    if remaining == 0 {
        return Threat::Judge;
    }
    if trigger {
        let made: bool = match last {
            Some(mv) => created_immediate_threat(board, mv, board.to_move().other()),
            None => false,
        };
        if !made {
            return Threat::Judge;
        }
    }
    match forcing_moves(board) {
        None => Threat::Judge,
        Some(ForcingMoves::Win(moves)) => {
            Threat::Win(moves[0], MATE_SCORE - (ply as i32 + 1))
        },
        Some(ForcingMoves::Block(moves)) => Threat::Block(moves),
    }
}

/// The counts and the memory of a search.
pub struct Searcher {
    pub max_nodes: u64,
    pub nodes: u64,
    pub tt_hits: u64,
    pub beta_cutoffs: u64,
    pub threat_nodes: u64,
    pub table: HashMap<u64, Stored>,
}

#[verifier::ext_equal]
pub struct SearcherView {
    pub max_nodes: u64,
    pub nodes: u64,
    pub tt_hits: u64,
    pub beta_cutoffs: u64,
    pub threat_nodes: u64,
    pub table: Map<u64, Stored>,
}

impl View for Searcher {
    type V = SearcherView;

    open spec fn view(&self) -> SearcherView {
        SearcherView {
            max_nodes: self.max_nodes,
            nodes: self.nodes,
            tt_hits: self.tt_hits,
            beta_cutoffs: self.beta_cutoffs,
            threat_nodes: self.threat_nodes,
            table: self.table@,
        }
    }
}

impl SearcherView {
    /// No count exceeds the nodes, nor they their limit.
    pub open spec fn wf(self) -> bool {
        &&& self.nodes <= self.max_nodes
        &&& self.tt_hits <= self.nodes
        &&& self.threat_nodes <= self.nodes
    }

    /// What is remembered of a position.
    pub open spec fn entry(self, board: BoardView) -> Option<Stored> {
        if self.table.dom().contains(key_of(board)) {
            Some(self.table[key_of(board)])
        } else {
            None
        }
    }

    pub open spec fn exhausted(self) -> bool {
        self.nodes >= self.max_nodes
    }

    /// Whether a position at a depth is asked of the memory and found there as
    /// deep.
    pub open spec fn hits(self, board: BoardView, depth: u16) -> bool {
        &&& outcome_of(board) is None
        &&& depth > 0
        &&& self.entry(board) is Some
        &&& self.entry(board)->0.depth >= depth
    }

    /// What a position comes to, and the searcher after that.
    pub open spec fn entered(
        self,
        board: BoardView,
        depth: u16,
        ply: u16,
        alpha: i64,
        beta: i64,
    ) -> (EntryView, SearcherView) {
        if self.exhausted() {
            (EntryView::Exhausted, self)
        } else {
            let after = SearcherView {
                nodes: (self.nodes + 1) as u64,
                tt_hits: if self.hits(board, depth) {
                    (self.tt_hits + 1) as u64
                } else {
                    self.tt_hits
                },
                ..self
            };
            let stored = self.entry(board);
            let moves = searched_moves(board);
            let found = match outcome_of(board) {
                Some(outcome) => EntryView::Finished(
                    finished_score(outcome, board.to_move, ply as int),
                ),
                None => if depth == 0 {
                    EntryView::Leaf
                } else if stored is Some && settles(
                    stored->0.depth,
                    stored->0.value,
                    stored->0.bound,
                    depth,
                    alpha,
                    beta,
                ) {
                    EntryView::Known(stored->0.value, stored->0.best)
                } else if moves.len() == 0 {
                    EntryView::Stuck
                } else {
                    EntryView::Moves(
                        moves,
                        match stored {
                            Some(entry) => entry.best,
                            None => None,
                        },
                    )
                },
            };
            (found, after)
        }
    }

    /// The searcher after a node of the threats.
    pub open spec fn with_threat_node(self) -> SearcherView {
        SearcherView {
            nodes: (self.nodes + 1) as u64,
            threat_nodes: (self.threat_nodes + 1) as u64,
            ..self
        }
    }

    /// The searcher after a loop whose window closed, or not.
    pub open spec fn with_cutoff(self, cut: bool) -> SearcherView {
        if cut && self.beta_cutoffs < u64::MAX {
            SearcherView { beta_cutoffs: (self.beta_cutoffs + 1) as u64, ..self }
        } else {
            self
        }
    }

    /// The searcher that remembers what a loop over the actions came to.
    pub open spec fn with_result(
        self,
        board: BoardView,
        depth: u16,
        children: MoveLoop,
        moves: Seq<Move>,
    ) -> SearcherView {
        let cut = self.with_cutoff(children.alpha >= children.beta);
        SearcherView {
            table: cut.table.insert(
                key_of(board),
                Stored {
                    depth,
                    value: children.best,
                    bound: bound_for(children.best, children.original, children.beta),
                    best: children.best_move(moves),
                },
            ),
            ..cut
        }
    }

    /// The remembered best actions from a position on, `depth` at most.
    pub open spec fn line_from(self, board: BoardView, depth: nat) -> Seq<Move>
        decreases depth,
    {
        if depth == 0 || self.entry(board) is None || self.entry(board)->0.best is None {
            Seq::empty()
        } else {
            let mv = self.entry(board)->0.best->0;
            if board.legal(mv) {
                seq![mv] + self.line_from(board.played(mv), (depth - 1) as nat)
            } else {
                Seq::empty()
            }
        }
    }
}

impl MoveLoop {
    /// The action of the chosen child.
    pub open spec fn best_move(self, moves: Seq<Move>) -> Option<Move> {
        match self.chosen {
            Some(index) => Some(moves[index as int]),
            None => None,
        }
    }
}

fn chosen_move(children: &MoveLoop, moves: &[Move]) -> (result: Option<Move>)
    requires
        children.wf(),
        children.count == moves@.len(),
    ensures
        result == children.best_move(moves@),
{
    match children.chosen {
        Some(index) => Some(moves[index]),
        None => None,
    }
}

impl Searcher {
    pub fn new(config: AlphaBetaConfig) -> (result: Searcher)
        ensures
            result@.wf(),
            result@ == (SearcherView {
                max_nodes: config.max_nodes,
                nodes: 0,
                tt_hits: 0,
                beta_cutoffs: 0,
                threat_nodes: 0,
                table: Map::empty(),
            }),
    {
        Searcher {
            max_nodes: config.max_nodes,
            nodes: 0,
            tt_hits: 0,
            beta_cutoffs: 0,
            threat_nodes: 0,
            table: HashMap::new(),
        }
    }

    fn recall(&self, board: &Board) -> (result: Option<Stored>)
        requires
            board@.wf(),
        ensures
            result == self@.entry(board@),
    {
        let key: u64 = board_hash(board);
        match self.table.get(&key) {
            Some(stored) => Some(*stored),
            None => None,
        }
    }

    /// Takes up a position with a window.
    pub fn enter(&mut self, board: &Board, depth: u16, ply: u16, alpha: i64, beta: i64) -> (result:
        Entry)
        requires
            old(self)@.wf(),
            board@.wf(),
        ensures
            (result@, final(self)@) == old(self)@.entered(board@, depth, ply, alpha, beta),
            final(self)@.wf(),
    {
        if self.nodes >= self.max_nodes {
            return Entry::Exhausted;
        }
        self.nodes = self.nodes + 1;
        match board.outcome() {
            Some(outcome) => {
                return Entry::Finished(terminal_value(outcome, board.to_move(), ply));
            },
            None => {},
        }
        if depth == 0 {
            return Entry::Leaf;
        }
        let stored: Option<Stored> = self.recall(board);
        let mut first: Option<Move> = None;
        match stored {
            Some(entry) => {
                if entry.depth >= depth {
                    self.tt_hits = self.tt_hits + 1;
                }
                if table_settles(entry.depth, entry.value, entry.bound, depth, alpha, beta) {
                    return Entry::Known(entry.value, entry.best);
                }
                first = entry.best;
            },
            None => {},
        }
        let moves: Vec<Move> = match forcing_moves(board) {
            Some(ForcingMoves::Win(moves)) => moves,
            Some(ForcingMoves::Block(moves)) => moves,
            None => board.search_candidates(),
        };
        if moves.len() == 0 {
            return Entry::Stuck;
        }
        Entry::Moves(moves, first)
    }

    /// Counts a node of the threats, unless the nodes are used up.
    pub fn count_threat(&mut self) -> (counted: bool)
        requires
            old(self)@.wf(),
        ensures
            counted == !old(self)@.exhausted(),
            final(self)@ == (if counted {
                old(self)@.with_threat_node()
            } else {
                old(self)@
            }),
            final(self)@.wf(),
    {
        if self.nodes >= self.max_nodes {
            return false;
        }
        self.nodes = self.nodes + 1;
        self.threat_nodes = self.threat_nodes + 1;
        true
    }

    /// Counts a window that closed.
    pub fn count_cutoff(&mut self, children: &MoveLoop)
        requires
            old(self)@.wf(),
        ensures
            final(self)@ == old(self)@.with_cutoff(children.alpha >= children.beta),
            final(self)@.wf(),
    {
        if children.was_cut() && self.beta_cutoffs < u64::MAX {
            self.beta_cutoffs = self.beta_cutoffs + 1;
        }
    }

    /// Leaves a position whose children were searched, and remembers it.
    pub fn leave(&mut self, board: &Board, depth: u16, children: &MoveLoop, moves: &[Move]) -> (
        result: (i64, Option<Move>))
        requires
            old(self)@.wf(),
            board@.wf(),
            children.wf(),
            children.count == moves@.len(),
        ensures
            result == (children.best, children.best_move(moves@)),
            final(self)@ == old(self)@.with_result(board@, depth, *children, moves@),
            final(self)@.wf(),
    {
        self.count_cutoff(children);
        let best: Option<Move> = chosen_move(children, moves);
        let key: u64 = board_hash(board);
        self.table.insert(
            key,
            Stored {
                depth,
                value: children.best,
                bound: bound_of(children.best, children.original, children.beta),
                best,
            },
        );
        (children.best, best)
    }

    /// Leaves a position whose threats were searched.
    pub fn leave_threat(&mut self, children: &MoveLoop, moves: &[Move]) -> (result: (
        i64,
        Option<Move>,
    ))
        requires
            old(self)@.wf(),
            children.wf(),
            children.count == moves@.len(),
        ensures
            result == (children.best, children.best_move(moves@)),
            final(self)@ == old(self)@.with_cutoff(children.alpha >= children.beta),
            final(self)@.wf(),
    {
        self.count_cutoff(children);
        (children.best, chosen_move(children, moves))
    }

    /// The remembered best actions from a position on.
    pub fn principal_variation(&self, board: &Board, depth: u16) -> (line: Vec<Move>)
        requires
            board@.wf(),
        ensures
            line@ == self@.line_from(board@, depth as nat),
    {
        let mut line: Vec<Move> = Vec::new();
        let mut at: Board = board.clone();
        let mut rest: u16 = depth;
        let ghost whole = self@.line_from(board@, depth as nat);
        assert(line@ + whole =~= whole);
        while rest > 0
            invariant
                at@.wf(),
                whole == line@ + self@.line_from(at@, rest as nat),
            ensures
                line@ == whole,
            decreases rest,
        {
            let best: Option<Move> = match self.recall(&at) {
                Some(stored) => stored.best,
                None => None,
            };
            match best {
                Some(mv) => {
                    let ghost before = at@;
                    let ghost left = line@;
                    if !at.play(mv) {
                        assert(line@ =~= whole);
                        break;
                    }
                    line.push(mv);
                    rest = rest - 1;
                    assert(left + (seq![mv] + self@.line_from(at@, rest as nat)) =~= line@
                        + self@.line_from(at@, rest as nat));
                },
                None => {
                    assert(line@ =~= whole);
                    break;
                },
            }
        }
        assert(line@ =~= whole);
        line
    }
}

/// Taking up positions and threats, closing windows and remembering never use
/// more nodes than the limit, and never fewer than before.
pub proof fn law_nodes_stay_within_their_limit(
    searcher: SearcherView,
    board: BoardView,
    depth: u16,
    ply: u16,
    alpha: i64,
    beta: i64,
    children: MoveLoop,
    moves: Seq<Move>,
)
    requires
        searcher.wf(),
    ensures
        ({
            let entered = searcher.entered(board, depth, ply, alpha, beta).1;
            let left = searcher.with_result(board, depth, children, moves);
            &&& entered.wf()
            &&& searcher.nodes <= entered.nodes <= searcher.max_nodes
            &&& left.wf()
            &&& left.nodes == searcher.nodes
            &&& !searcher.exhausted() ==> searcher.with_threat_node().wf()
        }),
{
}

/// What was remembered of a position settles the same search of it again: at
/// the same depth and window the score is known.
pub proof fn law_a_remembered_position_is_known(
    searcher: SearcherView,
    board: BoardView,
    depth: u16,
    ply: u16,
    children: MoveLoop,
    moves: Seq<Move>,
)
    requires
        searcher.wf(),
        children.wf(),
        depth > 0,
        outcome_of(board) is None,
        !searcher.exhausted(),
    ensures
        searcher.with_result(board, depth, children, moves).entered(
            board,
            depth,
            ply,
            children.original,
            children.beta,
        ).0 == EntryView::Known(children.best, children.best_move(moves)),
{
}

/// The line of remembered actions is no longer than asked, and every action of
/// it is legal where it stands.
pub proof fn law_the_line_is_legal(searcher: SearcherView, board: BoardView, depth: nat)
    ensures
        searcher.line_from(board, depth).len() <= depth,
        legal_line(board, searcher.line_from(board, depth)),
    decreases depth,
{
    if !(depth == 0 || searcher.entry(board) is None || searcher.entry(board)->0.best is None) {
        let mv = searcher.entry(board)->0.best->0;
        if board.legal(mv) {
            law_the_line_is_legal(searcher, board.played(mv), (depth - 1) as nat);
            let rest = searcher.line_from(board.played(mv), (depth - 1) as nat);
            let line = seq![mv] + rest;
            assert(line.drop_first() =~= rest);
        }
    }
}

/// The actions can be played one after the other.
pub open spec fn legal_line(board: BoardView, moves: Seq<Move>) -> bool
    decreases moves.len(),
{
    moves.len() == 0 || (board.legal(moves[0]) && legal_line(
        board.played(moves[0]),
        moves.drop_first(),
    ))
}

/// A search that goes deeper until it is decided, stopped or deep enough.
#[derive(Clone, Copy, Debug, PartialEq, Eq, Structural)]
pub struct Deepening {
    pub max_depth: u16,
    pub completed: u16,
    pub value: i64,
    pub best: Option<Move>,
    pub over: bool,
}

impl Deepening {
    pub open spec fn wf(self) -> bool {
        self.completed <= self.max_depth
    }

    pub open spec fn next(self) -> Option<u16> {
        if self.over || self.completed >= self.max_depth {
            None
        } else {
            Some((self.completed + 1) as u16)
        }
    }

    /// A search of a position, whose first legal action is the best so far.
    pub fn new(board: &Board, max_depth: u16) -> (result: Deepening)
        requires
            board@.wf(),
        ensures
            result == (Deepening {
                max_depth,
                completed: 0,
                value: 0,
                best: if legal_moves(board@).len() > 0 {
                    Some(legal_moves(board@)[0])
                } else {
                    None
                },
                over: false,
            }),
            result.wf(),
    {
        let moves: Vec<Move> = board.search_candidates();
        let best: Option<Move> = if moves.len() > 0 {
            Some(moves[0])
        } else {
            None
        };
        Deepening { max_depth, completed: 0, value: 0, best, over: false }
    }

    /// The depth to search next, if any.
    pub fn next_depth(&self) -> (result: Option<u16>)
        ensures
            result == self.next(),
    {
        if self.over || self.completed >= self.max_depth {
            None
        } else {
            Some(self.completed + 1)
        }
    }

    /// The search after what a depth came to.
    pub open spec fn reported(self, found: Option<(i64, Option<Move>)>, decided: bool) -> Deepening {
        match found {
            Some((value, best)) => Deepening {
                completed: (self.completed + 1) as u16,
                value,
                best: if best is Some {
                    best
                } else {
                    self.best
                },
                over: decided,
                ..self
            },
            None => Deepening { over: true, ..self },
        }
    }

    /// Takes what a depth came to: `None` if the nodes were used up.
    pub fn report(&mut self, found: Option<(i64, Option<Move>)>, decided: bool)
        requires
            old(self).wf(),
            old(self).next() is Some,
        ensures
            final(self).wf(),
            *final(self) == old(self).reported(found, decided),
    {
        match found {
            Some((value, best)) => {
                self.completed = self.completed + 1;
                self.value = value;
                if best.is_some() {
                    self.best = best;
                }
                self.over = decided;
            },
            None => {
                self.over = true;
            },
        }
    }
}

/// A deepening search never loses the action that it has to offer, and every
/// depth that it takes up brings it nearer to its end.
pub proof fn law_deepening_keeps_an_action_and_ends(
    state: Deepening,
    found: Option<(i64, Option<Move>)>,
    decided: bool,
)
    requires
        state.wf(),
        state.next() is Some,
    ensures
        ({
            let after = state.reported(found, decided);
            &&& after.wf()
            &&& state.best is Some ==> after.best is Some
            &&& after.next() is None || after.completed > state.completed
            &&& found is None ==> after.value == state.value && after.best == state.best
        }),
{
}

} // verus!
