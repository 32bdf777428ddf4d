//! Seeded choices: the mixing generator, shuffles, position hashes.
use crate::game::{Board, BoardView, Move};
use crate::grid::CELL_COUNT;
use crate::moves::legal_moves;
use vstd::prelude::*;

verus! {

/// The step of the generator's state.
pub const GOLDEN: u64 = 0x9E37_79B9_7F4A_7C15;

/// Scrambles a word.
pub open spec fn mixed(value: u64) -> u64 {
    let a = (value ^ (value >> 30)).wrapping_mul(0xBF58_476D_1CE4_E5B9);
    let b = (a ^ (a >> 27)).wrapping_mul(0x94D0_49BB_1331_11EB);
    b ^ (b >> 31)
}

pub fn mix64(value: u64) -> (result: u64)
    ensures
        result == mixed(value),
{
    let a: u64 = (value ^ (value >> 30)).wrapping_mul(0xBF58_476D_1CE4_E5B9);
    let b: u64 = (a ^ (a >> 27)).wrapping_mul(0x94D0_49BB_1331_11EB);
    b ^ (b >> 31)
}

/// A word as a place among `len`; place 0 if there is none.
pub open spec fn place_among(word: u64, len: usize) -> usize {
    let n = if len == 0 {
        1usize
    } else {
        len
    };
    (word as usize) % n
}

pub fn place(word: u64, len: usize) -> (result: usize)
    ensures
        result == place_among(word, len),
        len > 0 ==> result < len,
{
    let n: usize = if len == 0 {
        1
    } else {
        len
    };
    #[verifier::truncate]
    let w: usize = word as usize;
    w % n
}

/// A generator of scrambled words from a counter.
pub struct SplitMix64(pub u64);

impl SplitMix64 {
    /// The next word.
    pub fn next(&mut self) -> (result: u64)
        ensures
            final(self).0 == old(self).0.wrapping_add(GOLDEN),
            result == mixed(final(self).0),
    {
        self.0 = self.0.wrapping_add(GOLDEN);
        mix64(self.0)
    }

    /// The next place among `len`.
    pub fn index(&mut self, len: usize) -> (result: usize)
        ensures
            final(self).0 == old(self).0.wrapping_add(GOLDEN),
            result == place_among(mixed(final(self).0), len),
            len > 0 ==> result < len,
    {
        let word: u64 = self.next();
        place(word, len)
    }

    /// The next fraction of one, in units of one over two to the 24th.
    pub fn unit_numerator(&mut self) -> (result: u32)
        ensures
            final(self).0 == old(self).0.wrapping_add(GOLDEN),
            result == mixed(final(self).0) >> 40,
            result < 0x100_0000,
    {
        let word: u64 = self.next();
        assert(word >> 40 < 0x100_0000) by (bit_vector);
        (word >> 40) as u32
    }
}

/// The state after `n` words.
pub open spec fn state_after(state: u64, n: nat) -> u64
    decreases n,
{
    if n == 0 {
        state
    } else {
        state_after(state, (n - 1) as nat).wrapping_add(GOLDEN)
    }
}

/// Moves a seed on and gives a place among `len`.
pub fn random_index(seed: &mut u64, len: usize) -> (result: usize)
    ensures
        *final(seed) == old(seed).wrapping_add(GOLDEN),
        result == place_among(mixed(*final(seed)), len),
        len > 0 ==> result < len,
{
    *seed = seed.wrapping_add(GOLDEN);
    place(mix64(*seed), len)
}

/// Which of `len` past models a game is played against.
pub fn history_index(seed: u64, len: usize) -> (result: usize)
    ensures
        result == place_among(mixed(seed ^ 0xE703_7ED1_A0B4_28DB), len),
        len > 0 ==> result < len,
{
    place(mix64(seed ^ 0xE703_7ED1_A0B4_28DB), len)
}

/// The draw that decides how a job pairs the models, in units of one over two
/// to the 24th.
pub fn league_draw(seed: u64) -> (result: u32)
    ensures
        result == mixed(seed ^ 0xA076_1D64_78BD_642F) >> 40,
        result < 0x100_0000,
{
    let word: u64 = mix64(seed ^ 0xA076_1D64_78BD_642F);
    assert(word >> 40 < 0x100_0000) by (bit_vector);
    (word >> 40) as u32
}

/// The seed of a worker's game.
pub fn game_seed(seed: u64, worker: u64, game: u64) -> (result: u64)
    ensures
        result == seed ^ worker.wrapping_mul(0xD1B5_4A32_D192_ED03) ^ game.wrapping_mul(GOLDEN),
{
    seed ^ worker.wrapping_mul(0xD1B5_4A32_D192_ED03) ^ game.wrapping_mul(GOLDEN)
}

/// The sequence with two entries exchanged.
pub open spec fn exchanged<T>(s: Seq<T>, i: int, j: int) -> Seq<T> {
    s.update(i, s[j]).update(j, s[i])
}

/// The sequence after the exchanges of a shuffle from place `top` down to 1,
/// with the generator in the given state.
pub open spec fn shuffled<T>(s: Seq<T>, top: nat, state: u64) -> Seq<T>
    decreases top,
{
    if top == 0 || top >= s.len() {
        s
    } else {
        let next = state.wrapping_add(GOLDEN);
        let other = place_among(mixed(next), (top + 1) as usize);
        shuffled(exchanged(s, top as int, other as int), (top - 1) as nat, next)
    }
}

/// A shuffle of a whole sequence.
pub open spec fn shuffle_of<T>(s: Seq<T>, state: u64) -> Seq<T> {
    if s.len() == 0 {
        s
    } else {
        shuffled(s, (s.len() - 1) as nat, state)
    }
}

/// A shuffle keeps the entries: each occurs as often as before.
pub proof fn law_shuffle_keeps_entries<T>(s: Seq<T>, top: nat, state: u64)
    requires
        s.len() <= usize::MAX,
    ensures
        shuffled(s, top, state).to_multiset() == s.to_multiset(),
        shuffled(s, top, state).len() == s.len(),
    decreases top,
{
    broadcast use vstd::seq_lib::group_to_multiset_ensures;

    if top > 0 && top < s.len() {
        let next = state.wrapping_add(GOLDEN);
        let other = place_among(mixed(next), (top + 1) as usize);
        let t = exchanged(s, top as int, other as int);
        law_shuffle_keeps_entries(t, (top - 1) as nat, next);
        lemma_exchange(s, top as int, other as int);
    }
}

pub proof fn lemma_exchange<T>(s: Seq<T>, i: int, j: int)
    requires
        0 <= i < s.len(),
        0 <= j < s.len(),
    ensures
        exchanged(s, i, j).to_multiset() == s.to_multiset(),
{
    broadcast use vstd::seq_lib::group_to_multiset_ensures;

    let t = s.update(i, s[j]);
    let u = t.update(j, s[i]);
    vstd::seq_lib::to_multiset_update(s, i, s[j]);
    vstd::seq_lib::to_multiset_update(t, j, s[i]);
    if i == j {
        assert(u =~= s);
    } else {
        assert(t[j] == s[j]);
        assert(s.to_multiset().count(s[i]) > 0) by {
            assert(s.contains(s[i]));
        }
        assert(u.to_multiset() =~= s.to_multiset());
    }
}

/// Shuffles the entries.
pub fn shuffle<T: Copy>(values: &mut Vec<T>, rng: &mut SplitMix64)
    ensures
        final(values)@ == shuffle_of(old(values)@, old(rng).0),
        final(values)@.to_multiset() == old(values)@.to_multiset(),
        final(rng).0 == state_after(
            old(rng).0,
            (if old(values)@.len() == 0 {
                0
            } else {
                old(values)@.len() - 1
            }) as nat,
        ),
{
    let n: usize = values.len();
    if n == 0 {
        return;
    }
    let ghost first = rng.0;
    proof {
        law_shuffle_keeps_entries(values@, (n - 1) as nat, rng.0);
    }
    let mut top: usize = n - 1;
    while top > 0
        invariant
            top < n,
            values@.len() == n,
            shuffled(values@, top as nat, rng.0) == shuffle_of(old(values)@, first),
            rng.0 == state_after(first, (n - 1 - top) as nat),
        decreases top,
    {
        let other: usize = rng.index(top + 1);
        let a: T = values[top];
        let b: T = values[other];
        values.set(top, b);
        values.set(other, a);
        assert(n - 1 - (top - 1) == (n - 1 - top) + 1);
        top = top - 1;
    }
}

/// The hash of a position and its side to move, over the first `n` cells.
pub open spec fn hash_below(board: BoardView, n: nat) -> u64
    decreases n,
{
    if n == 0 {
        0xCBF2_9CE4_8422_2325u64 ^ (board.to_move.mark() as i64 as u64)
    } else {
        let before = hash_below(board, (n - 1) as nat);
        let word = ((board.cells[n - 1] + 2) as u64).wrapping_mul((n * 0x9E37_79B9) as u64);
        (before ^ word).wrapping_mul(0x100_0000_01B3)
    }
}

/// The hash by which equal positions are found again.
pub fn board_hash(board: &Board) -> (result: u64)
    requires
        board@.wf(),
    ensures
        result == hash_below(board@, CELL_COUNT as nat),
{
    let cells: &[i8] = board.cells();
    #[verifier::truncate]
    let side: u64 = board.to_move().stone() as i64 as u64;
    let mut hash: u64 = 0xCBF2_9CE4_8422_2325 ^ side;
    let mut index: usize = 0;
    while index < CELL_COUNT
        invariant
            board@.wf(),
            cells@ == board@.cells,
            index <= CELL_COUNT,
            hash == hash_below(board@, index as nat),
        decreases CELL_COUNT - index,
    {
        assert(-1 <= cells@[index as int] <= 1);
        let state: u64 = (cells[index] + 2) as u64;
        hash = hash ^ state.wrapping_mul((index as u64 + 1) * 0x9E37_79B9);
        hash = hash.wrapping_mul(0x100_0000_01B3);
        index = index + 1;
    }
    hash
}

/// Whether the stones and the side to move are the same.
pub fn same_position(a: &Board, b: &Board) -> (result: bool)
    requires
        a@.wf(),
        b@.wf(),
    ensures
        result == (a@.to_move == b@.to_move && a@.cells == b@.cells),
{
    if a.to_move() != b.to_move() {
        return false;
    }
    let x: &[i8] = a.cells();
    let y: &[i8] = b.cells();
    let mut i: usize = 0;
    while i < CELL_COUNT
        invariant
            x@.len() == CELL_COUNT,
            y@.len() == CELL_COUNT,
            x@ == a@.cells,
            y@ == b@.cells,
            i <= CELL_COUNT,
            forall|j: int| 0 <= j < i ==> x@[j] == y@[j],
        decreases CELL_COUNT - i,
    {
        if x[i] != y[i] {
            return false;
        }
        i = i + 1;
    }
    assert(a@.cells =~= b@.cells);
    true
}

/// Equal positions have equal hashes.
pub proof fn law_equal_positions_hash_equally(a: BoardView, b: BoardView, n: nat)
    requires
        a.to_move == b.to_move,
        a.cells == b.cells,
    ensures
        hash_below(a, n) == hash_below(b, n),
    decreases n,
{
    if n > 0 {
        law_equal_positions_hash_equally(a, b, (n - 1) as nat);
    }
}

/// The board after up to `plies` random legal actions.
#[verifier::opaque]
pub open spec fn opening_from(board: BoardView, seed: u64, plies: nat) -> BoardView
    decreases plies,
{
    let legal = legal_moves(board);
    if plies == 0 || legal.len() == 0 {
        board
    } else {
        let next = seed.wrapping_add(GOLDEN);
        let mv = legal[place_among(mixed(next), legal.len() as usize) as int];
        opening_from(board.played(mv), next, (plies - 1) as nat)
    }
}

/// One more action of a random opening.
proof fn lemma_opening_step(board: BoardView, seed: u64, plies: nat)
    ensures
        plies == 0 || legal_moves(board).len() == 0 ==> opening_from(board, seed, plies) == board,
        plies > 0 && legal_moves(board).len() > 0 ==> opening_from(board, seed, plies)
            == opening_from(
            board.played(
                legal_moves(board)[place_among(
                    mixed(seed.wrapping_add(GOLDEN)),
                    legal_moves(board).len() as usize,
                ) as int],
            ),
            seed.wrapping_add(GOLDEN),
            (plies - 1) as nat,
        ),
{
    reveal(opening_from);
}

/// The random opening of a pair of games.
pub fn random_opening(opening_seed: u64, pair: u64, plies: usize) -> (result: Board)
    ensures
        result@ == opening_from(
            crate::game::fresh_board(crate::game::no_stones(), crate::game::Player::Black),
            opening_seed ^ pair.wrapping_mul(GOLDEN),
            plies as nat,
        ),
        result@.wf(),
{
    let mut board: Board = Board::new();
    let mut seed: u64 = opening_seed ^ pair.wrapping_mul(GOLDEN);
    let ghost end = opening_from(board@, seed, plies as nat);
    let mut i: usize = 0;
    while i < plies
        invariant
            i <= plies,
            board@.wf(),
            opening_from(board@, seed, (plies - i) as nat) == end,
            end == opening_from(
                crate::game::fresh_board(crate::game::no_stones(), crate::game::Player::Black),
                opening_seed ^ pair.wrapping_mul(GOLDEN),
                plies as nat,
            ),
        decreases plies - i,
    {
        let legal: Vec<Move> = board.rule_legal_moves();
        proof {
            lemma_opening_step(board@, seed, (plies - i) as nat);
        }
        if legal.len() == 0 {
            return board;
        }
        let k: usize = random_index(&mut seed, legal.len());
        proof {
            crate::moves::lemma_legal_listed(board@, 362, k as int);
        }
        let played: bool = board.play(legal[k]);
        i = i + 1;
    }
    proof {
        lemma_opening_step(board@, seed, 0);
    }
    board
}

/// A factor with an inverse can be taken out again.
proof fn lemma_factor_taken_out(a: u64, c: u64, inverse: u64, k: int)
    requires
        c * inverse == k * 0x1_0000_0000_0000_0000 + 1,
    ensures
        (a.wrapping_mul(c) * inverse) % 0x1_0000_0000_0000_0000 == a,
{
    let m: int = 0x1_0000_0000_0000_0000;
    let product = a as int * c as int;
    assert(a.wrapping_mul(c) == product % m);
    vstd::arithmetic::div_mod::lemma_mul_mod_noop_left(product, inverse as int, m);
    assert(product * inverse == a as int * (c as int * inverse as int)) by (nonlinear_arith)
        requires
            product == a as int * c as int,
    ;
    assert(a as int * (k * m + 1) == a as int + m * (a as int * k)) by (nonlinear_arith);
    vstd::arithmetic::div_mod::lemma_mod_multiples_vanish(a as int * k, a as int, m);
    vstd::arithmetic::div_mod::lemma_small_mod(a as nat, m as nat);
}

/// Scrambling loses nothing: different words become different words.
pub proof fn law_scrambling_loses_nothing(a: u64, b: u64)
    ensures
        mixed(a) == mixed(b) <==> a == b,
{
    if mixed(a) == mixed(b) {
        let (a0, b0) = (a ^ (a >> 30), b ^ (b >> 30));
        let (a1, b1) = (
            a0.wrapping_mul(0xBF58_476D_1CE4_E5B9),
            b0.wrapping_mul(0xBF58_476D_1CE4_E5B9),
        );
        let (a2, b2) = (a1 ^ (a1 >> 27), b1 ^ (b1 >> 27));
        let (a3, b3) = (
            a2.wrapping_mul(0x94D0_49BB_1331_11EB),
            b2.wrapping_mul(0x94D0_49BB_1331_11EB),
        );
        assert(a3 ^ (a3 >> 31) == b3 ^ (b3 >> 31) ==> a3 == b3) by (bit_vector);
        lemma_factor_taken_out(
            a2,
            0x94D0_49BB_1331_11EB,
            0x3196_42B2_D24D_8EC3,
            2077064247507883091,
        );
        lemma_factor_taken_out(
            b2,
            0x94D0_49BB_1331_11EB,
            0x3196_42B2_D24D_8EC3,
            2077064247507883091,
        );
        assert(a2 == b2);
        assert(a1 ^ (a1 >> 27) == b1 ^ (b1 >> 27) ==> a1 == b1) by (bit_vector);
        lemma_factor_taken_out(
            a0,
            0xBF58_476D_1CE4_E5B9,
            0x96DE_1B17_3F11_9089,
            8125545580553827436,
        );
        lemma_factor_taken_out(
            b0,
            0xBF58_476D_1CE4_E5B9,
            0x96DE_1B17_3F11_9089,
            8125545580553827436,
        );
        assert(a0 == b0);
        assert(a ^ (a >> 30) == b ^ (b >> 30) ==> a == b) by (bit_vector);
    }
}

/// The hashes are told apart by one more cell as by the cells before it, where
/// these cells are equal.
proof fn lemma_hash_step(a: BoardView, b: BoardView, n: nat)
    requires
        n > 0,
        a.cells[n - 1] == b.cells[n - 1],
        hash_below(a, n) == hash_below(b, n),
    ensures
        hash_below(a, (n - 1) as nat) == hash_below(b, (n - 1) as nat),
{
    let (x, y) = (hash_below(a, (n - 1) as nat), hash_below(b, (n - 1) as nat));
    let word = ((a.cells[n - 1] + 2) as u64).wrapping_mul((n * 0x9E37_79B9) as u64);
    lemma_factor_taken_out(x ^ word, 0x100_0000_01B3, 0xCE96_5057_AFF6_957B, 887285111055);
    lemma_factor_taken_out(y ^ word, 0x100_0000_01B3, 0xCE96_5057_AFF6_957B, 887285111055);
    assert(x ^ word == y ^ word ==> x == y) by (bit_vector);
}

/// Positions with the same stones and different sides to move have different
/// hashes.
pub proof fn law_the_side_to_move_changes_the_hash(a: BoardView, b: BoardView, n: nat)
    requires
        a.to_move != b.to_move,
        forall|i: int| 0 <= i < n ==> a.cells[i] == b.cells[i],
    ensures
        hash_below(a, n) != hash_below(b, n),
    decreases n,
{
    if n == 0 {
        assert((0xCBF2_9CE4_8422_2325u64 ^ (1i8 as i64 as u64)) != (0xCBF2_9CE4_8422_2325u64 ^ (-1i8
            as i64 as u64))) by (bit_vector);
    } else {
        law_the_side_to_move_changes_the_hash(a, b, (n - 1) as nat);
        if hash_below(a, n) == hash_below(b, n) {
            lemma_hash_step(a, b, n);
        }
    }
}

/// Positions that differ in one point alone have different hashes.
pub proof fn law_one_point_changes_the_hash(a: BoardView, b: BoardView, p: int, n: nat)
    requires
        a.wf(),
        b.wf(),
        a.to_move == b.to_move,
        0 <= p < n <= CELL_COUNT,
        a.cells[p] != b.cells[p],
        forall|i: int| 0 <= i < n && i != p ==> a.cells[i] == b.cells[i],
    ensures
        hash_below(a, n) != hash_below(b, n),
    decreases n,
{
    let m = (n - 1) as nat;
    if p < n - 1 {
        law_one_point_changes_the_hash(a, b, p, m);
        if hash_below(a, n) == hash_below(b, n) {
            lemma_hash_step(a, b, n);
        }
    } else {
        lemma_same_below(a, b, m);
        let x = hash_below(a, m);
        let weight = (n * 0x9E37_79B9) as u64;
        let (s, t) = ((a.cells[p] + 2) as u64, (b.cells[p] + 2) as u64);
        let (v, w) = (s.wrapping_mul(weight), t.wrapping_mul(weight));
        assert(-1 <= a.cells[p] <= 1 && -1 <= b.cells[p] <= 1);
        assert(v == s * weight && w == t * weight) by {
            assert(0 <= s * weight <= 3 * weight && 0 <= t * weight <= 3 * weight)
                by (nonlinear_arith)
                requires
                    s <= 3,
                    t <= 3,
            ;
        }
        assert(v != w) by (nonlinear_arith)
            requires
                v == s * weight,
                w == t * weight,
                s != t,
                weight > 0,
        ;
        lemma_factor_taken_out(x ^ v, 0x100_0000_01B3, 0xCE96_5057_AFF6_957B, 887285111055);
        lemma_factor_taken_out(x ^ w, 0x100_0000_01B3, 0xCE96_5057_AFF6_957B, 887285111055);
        assert(x ^ v == x ^ w ==> v == w) by (bit_vector);
    }
}

proof fn lemma_same_below(a: BoardView, b: BoardView, n: nat)
    requires
        a.to_move == b.to_move,
        forall|i: int| 0 <= i < n ==> a.cells[i] == b.cells[i],
    ensures
        hash_below(a, n) == hash_below(b, n),
    decreases n,
{
    if n > 0 {
        lemma_same_below(a, b, (n - 1) as nat);
    }
}

} // verus!
