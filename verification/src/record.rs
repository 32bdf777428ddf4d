//! A sample as a snapshot holds it: its numbers, one after another in bytes.
//! The bytes can be read in one way only.
use crate::game::positions;
use vstd::bytes::{
    lemma_auto_spec_u32_to_from_le_bytes, lemma_auto_spec_u64_to_from_le_bytes,
    spec_u32_to_le_bytes, spec_u64_to_le_bytes,
};
use vstd::prelude::*;

verus! {

/// The numbers of a sample. The side to move is 0 for Black and 1 for White;
/// the labels are the bits of single-precision numbers.
pub struct Record {
    pub cells: Vec<i8>,
    pub side: u32,
    pub moves: u64,
    pub passes: u64,
    pub komi_milli: i32,
    pub previous: Vec<i8>,
    pub history: Vec<Vec<i8>>,
    pub policy: Vec<(u64, u32)>,
    pub generation: u64,
    pub value: u32,
    pub policy_weight: u32,
    pub value_weight: u32,
    pub policy_surprise: u32,
    pub value_surprise: u32,
    pub predicted_value: u32,
}

#[verifier::ext_equal]
pub struct RecordView {
    pub cells: Seq<i8>,
    pub side: u32,
    pub moves: u64,
    pub passes: u64,
    pub komi_milli: i32,
    pub previous: Seq<i8>,
    pub history: Seq<Seq<i8>>,
    pub policy: Seq<(u64, u32)>,
    pub generation: u64,
    pub value: u32,
    pub policy_weight: u32,
    pub value_weight: u32,
    pub policy_surprise: u32,
    pub value_surprise: u32,
    pub predicted_value: u32,
}

impl View for Record {
    type V = RecordView;

    open spec fn view(&self) -> RecordView {
        RecordView {
            cells: self.cells@,
            side: self.side,
            moves: self.moves,
            passes: self.passes,
            komi_milli: self.komi_milli,
            previous: self.previous@,
            history: positions(self.history@),
            policy: self.policy@,
            generation: self.generation,
            value: self.value,
            policy_weight: self.policy_weight,
            value_weight: self.value_weight,
            policy_surprise: self.policy_surprise,
            value_surprise: self.value_surprise,
            predicted_value: self.predicted_value,
        }
    }
}

/// The byte of a small number, in two's complement.
pub open spec fn byte_of(cell: i8) -> u8 {
    if cell < 0 {
        (cell + 256) as u8
    } else {
        cell as u8
    }
}

/// The bits of a number, in two's complement.
pub open spec fn bits_of(n: i32) -> u32 {
    if n < 0 {
        (n + 0x1_0000_0000) as u32
    } else {
        n as u32
    }
}

/// How many cells there are, then a byte for each.
pub open spec fn list_code(cells: Seq<i8>) -> Seq<u8> {
    spec_u64_to_le_bytes(cells.len() as u64) + Seq::new(
        cells.len(),
        |i: int| byte_of(cells[i]),
    )
}

/// Lists of cells, one after another.
pub open spec fn lists_code(lists: Seq<Seq<i8>>) -> Seq<u8>
    decreases lists.len(),
{
    if lists.len() == 0 {
        Seq::empty()
    } else {
        list_code(lists[0]) + lists_code(lists.drop_first())
    }
}

/// Actions with the bits of their shares, one after another.
pub open spec fn pairs_code(pairs: Seq<(u64, u32)>) -> Seq<u8>
    decreases pairs.len(),
{
    if pairs.len() == 0 {
        Seq::empty()
    } else {
        spec_u64_to_le_bytes(pairs[0].0) + (spec_u32_to_le_bytes(pairs[0].1) + pairs_code(
            pairs.drop_first(),
        ))
    }
}

/// The labels, one after another.
pub open spec fn labels_code(record: RecordView) -> Seq<u8> {
    spec_u32_to_le_bytes(record.value) + (spec_u32_to_le_bytes(record.policy_weight) + (
    spec_u32_to_le_bytes(record.value_weight) + (spec_u32_to_le_bytes(record.policy_surprise) + (
    spec_u32_to_le_bytes(record.value_surprise) + spec_u32_to_le_bytes(record.predicted_value)))))
}

/// What follows the cells of the position.
pub open spec fn past_code(record: RecordView) -> Seq<u8> {
    list_code(record.previous) + (spec_u64_to_le_bytes(record.history.len() as u64) + (lists_code(
        record.history,
    ) + (spec_u64_to_le_bytes(record.policy.len() as u64) + (pairs_code(record.policy) + (
    spec_u64_to_le_bytes(record.generation) + labels_code(record))))))
}

/// The bytes of a record: every number with its lowest byte first, and before
/// every list how many entries it has.
pub open spec fn code(record: RecordView) -> Seq<u8> {
    list_code(record.cells) + (spec_u32_to_le_bytes(record.side) + (spec_u64_to_le_bytes(
        record.moves,
    ) + (spec_u64_to_le_bytes(record.passes) + (spec_u32_to_le_bytes(bits_of(record.komi_milli))
        + past_code(record)))))
}

/// The bytes begin so.
pub open spec fn starts_with(bytes: Seq<u8>, head: Seq<u8>) -> bool {
    head.len() <= bytes.len() && bytes.take(head.len() as int) == head
}

/// `bincode::serialize` of the numbers as one tuple. It writes every number in
/// its full width with the lowest byte first, a list as its length and then
/// its entries, and a tuple as its parts; into a vector this does not fail.
#[verifier::external_body]
pub(crate) fn write_record(record: &Record) -> (result: Option<Vec<u8>>)
    ensures
        result is Some,
        result->0@ == code(record@),
{
    let Record { cells, side, moves, passes, komi_milli, previous, history, policy, .. } = record;
    let Record { generation, value, policy_weight, value_weight, .. } = record;
    let Record { policy_surprise, value_surprise, predicted_value, .. } = record;
    let weights = (value, policy_weight, value_weight);
    let surprises = (policy_surprise, value_surprise, predicted_value);
    let board = (cells, side, moves, passes, komi_milli, previous, history);
    bincode::serialize(&(board, policy, generation, weights, surprises)).ok()
}

/// `bincode::deserialize_from` of the numbers as one tuple, from a slice: the
/// record that the bytes begin with, and how many bytes are left behind it. It
/// fails if the bytes end too early, which is the only way in which they do
/// not begin with a record.
#[verifier::external_body]
pub(crate) fn read_record(bytes: &[u8]) -> (result: Option<(Record, usize)>)
    ensures
        match result {
            Some((record, left)) => starts_with(bytes@, code(record@)) && left == bytes@.len()
                - code(record@).len(),
            None => forall|record: RecordView| !starts_with(bytes@, #[trigger] code(record)),
        },
{
    let mut rest = bytes;
    let parts = bincode::deserialize_from(&mut rest).ok()?;
    let (board, policy, generation, weights, surprises) = parts;
    let (cells, side, moves, passes, komi_milli, previous, history) = board;
    let (value, policy_weight, value_weight) = weights;
    let (policy_surprise, value_surprise, predicted_value) = surprises;
    let record = Record {
        cells, side, moves, passes, komi_milli, previous, history, policy, generation, value,
        policy_weight, value_weight, policy_surprise, value_surprise, predicted_value,
    };
    Some((record, rest.len()))
}

proof fn lemma_same_head(a: Seq<u8>, b: Seq<u8>, x: Seq<u8>, y: Seq<u8>)
    requires
        a.len() == b.len(),
        a + x == b + y,
    ensures
        a == b,
        x == y,
{
    assert(a =~= (a + x).take(a.len() as int));
    assert(b =~= (b + y).take(a.len() as int));
    assert(x =~= (a + x).skip(a.len() as int));
    assert(y =~= (b + y).skip(a.len() as int));
}

proof fn lemma_word(m: u64, n: u64, x: Seq<u8>, y: Seq<u8>)
    requires
        spec_u64_to_le_bytes(m) + x == spec_u64_to_le_bytes(n) + y,
    ensures
        m == n,
        x == y,
{
    lemma_auto_spec_u64_to_from_le_bytes();
    assert(spec_u64_to_le_bytes(m).len() == spec_u64_to_le_bytes(n).len());
    lemma_same_head(spec_u64_to_le_bytes(m), spec_u64_to_le_bytes(n), x, y);
}

proof fn lemma_half_word(m: u32, n: u32, x: Seq<u8>, y: Seq<u8>)
    requires
        spec_u32_to_le_bytes(m) + x == spec_u32_to_le_bytes(n) + y,
    ensures
        m == n,
        x == y,
{
    lemma_auto_spec_u32_to_from_le_bytes();
    assert(spec_u32_to_le_bytes(m).len() == spec_u32_to_le_bytes(n).len());
    lemma_same_head(spec_u32_to_le_bytes(m), spec_u32_to_le_bytes(n), x, y);
}

proof fn lemma_list(c: Seq<i8>, d: Seq<i8>, x: Seq<u8>, y: Seq<u8>)
    requires
        list_code(c) + x == list_code(d) + y,
        (list_code(c) + x).len() <= u64::MAX,
    ensures
        c == d,
        x == y,
{
    let a = Seq::new(c.len(), |i: int| byte_of(c[i]));
    let b = Seq::new(d.len(), |i: int| byte_of(d[i]));
    let m = spec_u64_to_le_bytes(c.len() as u64);
    let n = spec_u64_to_le_bytes(d.len() as u64);
    assert(list_code(c) + x =~= m + (a + x));
    assert(list_code(d) + y =~= n + (b + y));
    assert((m + (a + x)).len() >= c.len());
    assert((n + (b + y)).len() >= d.len());
    lemma_word(c.len() as u64, d.len() as u64, a + x, b + y);
    lemma_same_head(a, b, x, y);
    assert forall|i: int| 0 <= i < c.len() implies c[i] == d[i] by {
        assert(a[i] == b[i]);
    }
    assert(c =~= d);
}

proof fn lemma_lists(g: Seq<Seq<i8>>, h: Seq<Seq<i8>>, x: Seq<u8>, y: Seq<u8>)
    requires
        g.len() == h.len(),
        lists_code(g) + x == lists_code(h) + y,
        (lists_code(g) + x).len() <= u64::MAX,
    ensures
        g == h,
        x == y,
    decreases g.len(),
{
    if g.len() == 0 {
        assert(lists_code(g) + x =~= x);
        assert(lists_code(h) + y =~= y);
        assert(g =~= h);
    } else {
        let u = lists_code(g.drop_first()) + x;
        let v = lists_code(h.drop_first()) + y;
        assert(lists_code(g) + x =~= list_code(g[0]) + u);
        assert(lists_code(h) + y =~= list_code(h[0]) + v);
        lemma_list(g[0], h[0], u, v);
        lemma_lists(g.drop_first(), h.drop_first(), x, y);
        assert forall|i: int| 0 <= i < g.len() implies g[i] == h[i] by {
            if i > 0 {
                assert(g.drop_first()[i - 1] == h.drop_first()[i - 1]);
            }
        }
        assert(g =~= h);
    }
}

proof fn lemma_pairs(p: Seq<(u64, u32)>, q: Seq<(u64, u32)>, x: Seq<u8>, y: Seq<u8>)
    requires
        p.len() == q.len(),
        pairs_code(p) + x == pairs_code(q) + y,
    ensures
        p == q,
        x == y,
    decreases p.len(),
{
    if p.len() == 0 {
        assert(pairs_code(p) + x =~= x);
        assert(pairs_code(q) + y =~= y);
        assert(p =~= q);
    } else {
        let u = pairs_code(p.drop_first()) + x;
        let v = pairs_code(q.drop_first()) + y;
        let a = spec_u32_to_le_bytes(p[0].1);
        let b = spec_u32_to_le_bytes(q[0].1);
        assert(pairs_code(p) + x =~= spec_u64_to_le_bytes(p[0].0) + (a + u));
        assert(pairs_code(q) + y =~= spec_u64_to_le_bytes(q[0].0) + (b + v));
        lemma_word(p[0].0, q[0].0, a + u, b + v);
        lemma_half_word(p[0].1, q[0].1, u, v);
        lemma_pairs(p.drop_first(), q.drop_first(), x, y);
        assert forall|i: int| 0 <= i < p.len() implies p[i] == q[i] by {
            if i > 0 {
                assert(p.drop_first()[i - 1] == q.drop_first()[i - 1]);
            }
        }
        assert(p =~= q);
    }
}

proof fn lemma_pairs_len(pairs: Seq<(u64, u32)>)
    ensures
        pairs_code(pairs).len() >= pairs.len(),
    decreases pairs.len(),
{
    if pairs.len() > 0 {
        lemma_auto_spec_u64_to_from_le_bytes();
        assert(spec_u64_to_le_bytes(pairs[0].0).len() == 8);
        lemma_pairs_len(pairs.drop_first());
    }
}

proof fn lemma_lists_len(lists: Seq<Seq<i8>>)
    ensures
        lists_code(lists).len() >= lists.len(),
    decreases lists.len(),
{
    if lists.len() > 0 {
        lemma_auto_spec_u64_to_from_le_bytes();
        assert(spec_u64_to_le_bytes(lists[0].len() as u64).len() == 8);
        lemma_lists_len(lists.drop_first());
    }
}

proof fn lemma_labels(r: RecordView, s: RecordView, x: Seq<u8>, y: Seq<u8>)
    requires
        labels_code(r) + x == labels_code(s) + y,
    ensures
        r.value == s.value,
        r.policy_weight == s.policy_weight,
        r.value_weight == s.value_weight,
        r.policy_surprise == s.policy_surprise,
        r.value_surprise == s.value_surprise,
        r.predicted_value == s.predicted_value,
        x == y,
{
    let a5 = spec_u32_to_le_bytes(r.predicted_value) + x;
    let b5 = spec_u32_to_le_bytes(s.predicted_value) + y;
    let a4 = spec_u32_to_le_bytes(r.value_surprise) + a5;
    let b4 = spec_u32_to_le_bytes(s.value_surprise) + b5;
    let a3 = spec_u32_to_le_bytes(r.policy_surprise) + a4;
    let b3 = spec_u32_to_le_bytes(s.policy_surprise) + b4;
    let a2 = spec_u32_to_le_bytes(r.value_weight) + a3;
    let b2 = spec_u32_to_le_bytes(s.value_weight) + b3;
    let a1 = spec_u32_to_le_bytes(r.policy_weight) + a2;
    let b1 = spec_u32_to_le_bytes(s.policy_weight) + b2;
    assert(labels_code(r) + x =~= spec_u32_to_le_bytes(r.value) + a1);
    assert(labels_code(s) + y =~= spec_u32_to_le_bytes(s.value) + b1);
    lemma_half_word(r.value, s.value, a1, b1);
    lemma_half_word(r.policy_weight, s.policy_weight, a2, b2);
    lemma_half_word(r.value_weight, s.value_weight, a3, b3);
    lemma_half_word(r.policy_surprise, s.policy_surprise, a4, b4);
    lemma_half_word(r.value_surprise, s.value_surprise, a5, b5);
    lemma_half_word(r.predicted_value, s.predicted_value, x, y);
}

proof fn lemma_past(r: RecordView, s: RecordView, x: Seq<u8>, y: Seq<u8>)
    requires
        past_code(r) + x == past_code(s) + y,
        (past_code(r) + x).len() <= u64::MAX,
    ensures
        r.previous == s.previous,
        r.history == s.history,
        r.policy == s.policy,
        r.generation == s.generation,
        r.value == s.value,
        r.policy_weight == s.policy_weight,
        r.value_weight == s.value_weight,
        r.policy_surprise == s.policy_surprise,
        r.value_surprise == s.value_surprise,
        r.predicted_value == s.predicted_value,
        x == y,
{
    let a6 = labels_code(r) + x;
    let b6 = labels_code(s) + y;
    let a5 = spec_u64_to_le_bytes(r.generation) + a6;
    let b5 = spec_u64_to_le_bytes(s.generation) + b6;
    let a4 = pairs_code(r.policy) + a5;
    let b4 = pairs_code(s.policy) + b5;
    let a3 = spec_u64_to_le_bytes(r.policy.len() as u64) + a4;
    let b3 = spec_u64_to_le_bytes(s.policy.len() as u64) + b4;
    let a2 = lists_code(r.history) + a3;
    let b2 = lists_code(s.history) + b3;
    let a1 = spec_u64_to_le_bytes(r.history.len() as u64) + a2;
    let b1 = spec_u64_to_le_bytes(s.history.len() as u64) + b2;
    assert(past_code(r) + x =~= list_code(r.previous) + a1);
    assert(past_code(s) + y =~= list_code(s.previous) + b1);
    lemma_list(r.previous, s.previous, a1, b1);
    lemma_lists_len(r.history);
    lemma_lists_len(s.history);
    lemma_pairs_len(r.policy);
    lemma_pairs_len(s.policy);
    assert(a1.len() >= a2.len() >= a3.len() >= a4.len());
    assert(b1.len() >= b2.len() >= b3.len() >= b4.len());
    lemma_word(r.history.len() as u64, s.history.len() as u64, a2, b2);
    lemma_lists(r.history, s.history, a3, b3);
    lemma_word(r.policy.len() as u64, s.policy.len() as u64, a4, b4);
    lemma_pairs(r.policy, s.policy, a5, b5);
    lemma_word(r.generation, s.generation, a6, b6);
    lemma_labels(r, s, x, y);
}

/// Bytes begin with one record at most, and it ends in one place.
pub proof fn law_records_are_read_in_one_way(r: RecordView, s: RecordView, x: Seq<u8>, y: Seq<u8>)
    requires
        code(r) + x == code(s) + y,
        (code(r) + x).len() <= u64::MAX,
    ensures
        r == s,
        x == y,
{
    let a5 = past_code(r) + x;
    let b5 = past_code(s) + y;
    let a4 = spec_u32_to_le_bytes(bits_of(r.komi_milli)) + a5;
    let b4 = spec_u32_to_le_bytes(bits_of(s.komi_milli)) + b5;
    let a3 = spec_u64_to_le_bytes(r.passes) + a4;
    let b3 = spec_u64_to_le_bytes(s.passes) + b4;
    let a2 = spec_u64_to_le_bytes(r.moves) + a3;
    let b2 = spec_u64_to_le_bytes(s.moves) + b3;
    let a1 = spec_u32_to_le_bytes(r.side) + a2;
    let b1 = spec_u32_to_le_bytes(s.side) + b2;
    assert(code(r) + x =~= list_code(r.cells) + a1);
    assert(code(s) + y =~= list_code(s.cells) + b1);
    lemma_list(r.cells, s.cells, a1, b1);
    lemma_half_word(r.side, s.side, a2, b2);
    lemma_word(r.moves, s.moves, a3, b3);
    lemma_word(r.passes, s.passes, a4, b4);
    lemma_half_word(bits_of(r.komi_milli), bits_of(s.komi_milli), a5, b5);
    assert(a1.len() >= a2.len() >= a3.len() >= a4.len() >= a5.len());
    lemma_past(r, s, x, y);
    assert(r =~= s);
}

} // verus!
