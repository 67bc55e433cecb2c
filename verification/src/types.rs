//! Board representation and the compact 10-byte position key.
use vstd::prelude::*;
use crate::text::{all_ascii, ascii_chars, ascii_to_string, decimal, lemma_decimal_is_ascii, push_decimal};

verus! {

/// A backgammon board as `[side][point]`: point 0 is the borne-off tray,
/// points 1..=23 are board points and point 24 is the bar.
pub type Board = [[u32; 25]; 2];

/// Number of (side, point) cells on a board.
pub const NUM_CELLS: usize = 50;

/// Number of points per side (0..=24).
pub const NUM_POINTS: usize = 25;

/// Maximum checkers per player.
pub const MAX_CHECKERS: u32 = 15;

/// A 10-byte key identifying a board position (gnubg's "old" position key).
#[derive(Clone, Copy, Debug, PartialEq, Eq, Hash)]
pub struct PositionKey(pub [u8; 10]);

impl PositionKey {
    pub fn from_raw(raw: [u8; 10]) -> (key: Self)
        ensures
            key.0 == raw,
    {
        PositionKey(raw)
    }

    pub fn as_raw(&self) -> (raw: &[u8; 10])
        ensures
            *raw == self.0,
    {
        &self.0
    }
}

// ---------------------------------------------------------------------------
// Specification of the bit encoding
// ---------------------------------------------------------------------------

/// Count of checkers in flattened cell `f` (side `f / 25`, point `f % 25`).
pub open spec fn cell(b: Board, f: int) -> u32 {
    b[f / 25][f % 25]
}

/// A run of `n` set bits.
pub open spec fn ones(n: nat) -> Seq<bool> {
    Seq::new(n, |i: int| true)
}

/// A run of `n` clear bits.
pub open spec fn zeros(n: nat) -> Seq<bool> {
    Seq::new(n, |i: int| false)
}

/// The bit stream that encodes the first `n` cells: for every cell, one set
/// bit per checker followed by a single clear bit.
pub open spec fn key_stream(b: Board, n: nat) -> Seq<bool>
    decreases n,
{
    if n == 0 {
        Seq::empty()
    } else {
        key_stream(b, (n - 1) as nat) + ones(cell(b, n - 1) as nat) + seq![false]
    }
}

/// The full encoding stream of a board (all 50 cells).
pub open spec fn board_stream(b: Board) -> Seq<bool> {
    key_stream(b, 50)
}

/// Total number of checkers over all cells `< n`.
pub open spec fn checkers_before(b: Board, n: nat) -> nat
    decreases n,
{
    if n == 0 {
        0
    } else {
        checkers_before(b, (n - 1) as nat) + cell(b, n - 1) as nat
    }
}

/// Total number of checkers of both sides (tray and bar included).
pub open spec fn total_checkers(b: Board) -> nat {
    checkers_before(b, 50)
}

/// Bit `r` (least significant first) of byte `x`.
pub open spec fn byte_bit(x: u8, r: int) -> bool {
    (x >> (r as u8)) & 1u8 == 1u8
}

/// Bit `j` of a 10-byte key: bit `j % 8` of byte `j / 8`.
pub open spec fn key_bit(k: Seq<u8>, j: int) -> bool {
    byte_bit(k[j / 8], j % 8)
}

/// The 80 bits of a key, in stream order.
pub open spec fn key_bits(k: Seq<u8>) -> Seq<bool> {
    Seq::new(80, |j: int| key_bit(k, j))
}

/// The key bits that encode board `b`: its stream, cut or padded to 80 bits.
pub open spec fn encoded_bit(b: Board, j: int) -> bool {
    j < board_stream(b).len() && board_stream(b)[j]
}

/// Runs read back from a bit stream: the last entry counts the set bits of
/// the cell being read; a clear bit closes it.  Reading stops once 50 cells
/// are closed.
pub open spec fn decode_runs(bits: Seq<bool>) -> Seq<nat>
    decreases bits.len(),
{
    if bits.len() == 0 {
        seq![0nat]
    } else {
        let r = decode_runs(bits.drop_last());
        if r.len() > 50 {
            r
        } else if bits.last() {
            r.update(r.len() - 1, r.last() + 1)
        } else {
            r.push(0nat)
        }
    }
}

/// The number of checkers that decoding `k` puts in flattened cell `f`.
pub open spec fn decoded_cell(k: Seq<u8>, f: int) -> nat {
    let r = decode_runs(key_bits(k));
    if f < r.len() {
        r[f]
    } else {
        0
    }
}

// ---------------------------------------------------------------------------
// Lemmas on the encoding
// ---------------------------------------------------------------------------

proof fn lemma_stream_len(b: Board, n: nat)
    ensures
        key_stream(b, n).len() == checkers_before(b, n) + n,
    decreases n,
{
    if n > 0 {
        lemma_stream_len(b, (n - 1) as nat);
    }
}

proof fn lemma_stream_prefix(b: Board, m: nat, n: nat)
    requires
        m <= n,
    ensures
        key_stream(b, m).len() <= key_stream(b, n).len(),
        forall|j: int| 0 <= j < key_stream(b, m).len() ==> key_stream(b, n)[j] == key_stream(b, m)[j],
    decreases n,
{
    if m < n {
        lemma_stream_prefix(b, m, (n - 1) as nat);
    }
}

proof fn lemma_bit_set(x: u8, r: u8, q: u8)
    by (bit_vector)
    requires
        r < 8,
        q < 8,
    ensures
        ((x | (1u8 << r)) >> q) & 1u8 == if q == r {
            1u8
        } else {
            (x >> q) & 1u8
        },
{
}

proof fn lemma_zero_byte(q: u8)
    by (bit_vector)
    requires
        q < 8,
    ensures
        (0u8 >> q) & 1u8 == 0u8,
{
}

proof fn lemma_decode_nonempty(s: Seq<bool>)
    ensures
        decode_runs(s).len() >= 1,
    decreases s.len(),
{
    if s.len() > 0 {
        lemma_decode_nonempty(s.drop_last());
    }
}

proof fn lemma_decode_ones(s: Seq<bool>, c: nat)
    requires
        decode_runs(s).len() <= 50,
    ensures
        decode_runs(s + ones(c)).len() == decode_runs(s).len(),
        decode_runs(s + ones(c)) == decode_runs(s).update(
            decode_runs(s).len() - 1,
            decode_runs(s).last() + c,
        ),
    decreases c,
{
    lemma_decode_nonempty(s);
    if c == 0 {
        assert(s + ones(0) =~= s);
        assert(decode_runs(s).update(decode_runs(s).len() - 1, decode_runs(s).last() + 0)
            =~= decode_runs(s));
    } else {
        lemma_decode_ones(s, (c - 1) as nat);
        let t = s + ones(c);
        assert(t.drop_last() =~= s + ones((c - 1) as nat));
        assert(t.last());
        let r = decode_runs(s);
        assert(decode_runs(t) =~= r.update(r.len() - 1, r.last() + c));
    }
}

proof fn lemma_decode_stopped(s: Seq<bool>, t: Seq<bool>)
    requires
        decode_runs(s).len() > 50,
    ensures
        decode_runs(s + t) == decode_runs(s),
    decreases t.len(),
{
    if t.len() == 0 {
        assert(s + t =~= s);
    } else {
        lemma_decode_stopped(s, t.drop_last());
        assert((s + t).drop_last() =~= s + t.drop_last());
    }
}

proof fn lemma_decode_stream(b: Board, n: nat)
    requires
        n <= 50,
    ensures
        decode_runs(key_stream(b, n)).len() == n + 1,
        forall|f: int| 0 <= f < n ==> decode_runs(key_stream(b, n))[f] == cell(b, f) as nat,
        decode_runs(key_stream(b, n))[n as int] == 0,
    decreases n,
{
    if n > 0 {
        let m = (n - 1) as nat;
        lemma_decode_stream(b, m);
        let s = key_stream(b, m);
        let c = cell(b, m as int) as nat;
        lemma_decode_ones(s, c);
        let t = s + ones(c) + seq![false];
        assert(key_stream(b, n) == t);
        assert(t.drop_last() =~= s + ones(c));
        assert(!t.last());
    }
}

/// Reading the key of a board gives the board back, provided the encoding
/// fits in the 80 key bits (at most 30 checkers in all).
pub proof fn lemma_old_key_roundtrip(b: Board, k: Seq<u8>)
    requires
        total_checkers(b) <= 30,
        forall|j: int| 0 <= j < 80 ==> key_bit(k, j) == encoded_bit(b, j),
    ensures
        forall|f: int| 0 <= f < 50 ==> decoded_cell(k, f) == cell(b, f) as nat,
{
    let s = board_stream(b);
    lemma_stream_len(b, 50);
    lemma_decode_stream(b, 50);
    let pad = zeros((80 - s.len()) as nat);
    assert(key_bits(k) =~= s + pad);
    lemma_decode_stopped(s, pad);
}

/// The key identifies the board: two boards of at most 30 checkers with the
/// same key are the same board.
pub proof fn lemma_old_key_unique(b1: Board, b2: Board, k: Seq<u8>)
    requires
        total_checkers(b1) <= 30,
        total_checkers(b2) <= 30,
        forall|j: int| 0 <= j < 80 ==> key_bit(k, j) == encoded_bit(b1, j),
        forall|j: int| 0 <= j < 80 ==> key_bit(k, j) == encoded_bit(b2, j),
    ensures
        b1 == b2,
{
    lemma_old_key_roundtrip(b1, k);
    lemma_old_key_roundtrip(b2, k);
    assert forall|s: int| 0 <= s < 2 implies b1[s] == b2[s] by {
        assert forall|p: int| 0 <= p < 25 implies b1[s][p] == b2[s][p] by {
            let f = s * 25 + p;
            assert(f / 25 == s && f % 25 == p);
            assert(cell(b1, f) as nat == decoded_cell(k, f));
            assert(cell(b2, f) as nat == decoded_cell(k, f));
        }
        assert(b1[s] =~= b2[s]);
    }
    assert(b1 =~= b2);
}

// ---------------------------------------------------------------------------
// Executable encoding / decoding
// ---------------------------------------------------------------------------

/// Compute the 10-byte position key of a board: for each of the 50 cells in
/// order, one set bit per checker and then one clear bit; bits beyond the
/// 80th are dropped.
pub fn old_position_key(board: &Board) -> (key: PositionKey)
    requires
        total_checkers(*board) + 50 <= u32::MAX,
    ensures
        forall|j: int| 0 <= j < 80 ==> key_bit(key.0@, j) == encoded_bit(*board, j),
{
    let mut key = [0u8; 10];
    let mut i_bit: u32 = 0;
    let mut idx: usize = 0;
    proof {
        lemma_stream_len(*board, 50);
        assert forall|j: int| 0 <= j < 80 implies !key_bit(key@, j) by {
            lemma_zero_byte((j % 8) as u8);
        }
    }
    while idx < NUM_CELLS
        invariant
            idx <= 50,
            total_checkers(*board) + 50 <= u32::MAX,
            key_stream(*board, 50).len() == total_checkers(*board) + 50,
            i_bit == key_stream(*board, idx as nat).len(),
            forall|j: int|
                0 <= j < 80 ==> key_bit(key@, j) == (j < i_bit && key_stream(*board, idx as nat)[j]),
        decreases 50 - idx,
    {
        let side = idx / 25;
        let point = idx % 25;
        let nc = board[side][point];
        let ghost base = key_stream(*board, idx as nat);
        proof {
            lemma_stream_prefix(*board, (idx + 1) as nat, 50);
            assert(key_stream(*board, (idx + 1) as nat) == base + ones(nc as nat) + seq![false]);
        }
        let mut t: u32 = 0;
        while t < nc
            invariant
                idx < 50,
                nc == cell(*board, idx as int),
                base == key_stream(*board, idx as nat),
                base.len() + nc + 1 <= u32::MAX,
                t <= nc,
                i_bit == base.len() + t,
                forall|j: int|
                    0 <= j < 80 ==> key_bit(key@, j) == (j < i_bit && (base + ones(t as nat))[j]),
            decreases nc - t,
        {
            let k = (i_bit / 8) as usize;
            let r = (i_bit % 8) as u8;
            let ghost old_key = key;
            if k < 10 {
                key[k] = key[k] | (1u8 << r);
            }
            proof {
                assert forall|j: int| 0 <= j < 80 implies key_bit(key@, j) == (j < i_bit + 1 && (
                base + ones((t + 1) as nat))[j]) by {
                    let q = (j % 8) as u8;
                    if j / 8 == k as int {
                        lemma_bit_set(old_key[k as int], r, q);
                        assert(key[k as int] == old_key[k as int] | (1u8 << r));
                        if q == r {
                            assert(j == i_bit);
                            assert(key_bit(key@, j));
                        } else {
                            assert(j != i_bit);
                            assert(key_bit(key@, j) == key_bit(old_key@, j));
                        }
                    } else {
                        assert(key[j / 8] == old_key[j / 8]);
                        assert(key_bit(key@, j) == key_bit(old_key@, j));
                    }
                    if j < i_bit {
                        assert((base + ones((t + 1) as nat))[j] == (base + ones(t as nat))[j]);
                    }
                }
            }
            i_bit = i_bit + 1;
            t = t + 1;
        }
        proof {
            let next = key_stream(*board, (idx + 1) as nat);
            assert forall|j: int| 0 <= j < 80 implies key_bit(key@, j) == (j < i_bit + 1
                && next[j]) by {
                if j < i_bit {
                    assert(next[j] == (base + ones(nc as nat))[j]);
                }
            }
        }
        i_bit = i_bit + 1;
        idx = idx + 1;
    }
    PositionKey(key)
}

/// Reconstruct a board from a 10-byte key (inverse of `old_position_key`).
pub fn board_from_old_key(key: &PositionKey) -> (board: Board)
    ensures
        forall|f: int| 0 <= f < 50 ==> cell(board, f) as nat == decoded_cell(key.0@, f),
        forall|s: int, p: int| 0 <= s < 2 && 0 <= p < 25 ==> board[s][p] <= 80,
{
    let mut board: Board = [[0u32; 25]; 2];
    let mut side: usize = 0;
    let mut point: usize = 0;
    let mut j: usize = 0;
    let ghost bits = key_bits(key.0@);
    while j < 80
        invariant
            j <= 80,
            bits == key_bits(key.0@),
            side < 2,
            point < 25,
            decode_runs(bits.take(j as int)).len() == 25 * side + point + 1,
            forall|f: int|
                0 <= f < 50 ==> cell(board, f) as nat == (if f < decode_runs(
                    bits.take(j as int),
                ).len() {
                    decode_runs(bits.take(j as int))[f]
                } else {
                    0
                }),
            forall|f: int| 0 <= f < 50 ==> cell(board, f) <= j,
        decreases 80 - j,
    {
        let byte = key.0[j / 8];
        let bit_idx = (j % 8) as u8;
        let ghost prev = bits.take(j as int);
        proof {
            assert(bits.take(j + 1).drop_last() =~= prev);
            assert(bits.take(j + 1).last() == key_bit(key.0@, j as int));
        }
        proof {
            lemma_decode_nonempty(prev);
            assert(cell(board, 25 * side + point) == board[side as int][point as int]);
        }
        let ghost old_board = board;
        let ghost cur = 25 * side + point;
        let set = (byte >> bit_idx) & 1 == 1;
        if set {
            board[side][point] += 1;
        } else {
            point += 1;
            if point == 25 {
                side += 1;
                point = 0;
            }
        }
        j = j + 1;
        proof {
            let r0 = decode_runs(prev);
            let r1 = decode_runs(bits.take(j as int));
            assert(set == bits.take(j as int).last());
            assert forall|f: int| 0 <= f < 50 implies cell(board, f) as nat == (if f < r1.len() {
                r1[f]
            } else {
                0
            }) && cell(board, f) <= j by {
                if f != cur {
                    assert(f / 25 != cur / 25 || f % 25 != cur % 25);
                    assert(cell(board, f) == cell(old_board, f));
                }
            }
        }
        if side >= 2 {
            proof {
                let r = decode_runs(bits.take(j as int));
                assert(r.len() == 51);
                lemma_decode_stopped(bits.take(j as int), bits.skip(j as int));
                assert(bits.take(j as int) + bits.skip(j as int) =~= bits);
            }
            proof {
                lemma_cells_bound(board, 80);
            }
            return board;
        }
    }
    proof {
        assert(bits.take(80) =~= bits);
        lemma_cells_bound(board, 80);
    }
    board
}

proof fn lemma_cells_bound(b: Board, limit: u32)
    requires
        forall|f: int| 0 <= f < 50 ==> cell(b, f) <= limit,
    ensures
        forall|s: int, p: int| 0 <= s < 2 && 0 <= p < 25 ==> b[s][p] <= limit,
{
    assert forall|s: int, p: int| 0 <= s < 2 && 0 <= p < 25 implies b[s][p] <= limit by {
        let f = 25 * s + p;
        assert(f / 25 == s && f % 25 == p);
        assert(cell(b, f) <= limit);
    }
}

/// With at most `limit` checkers per cell, the first `n` cells hold at most
/// `n * limit` checkers.
pub proof fn lemma_checkers_bound(b: Board, n: nat, limit: u32)
    requires
        forall|s: int, p: int| 0 <= s < 2 && 0 <= p < 25 ==> b[s][p] <= limit,
        n <= 50,
    ensures
        checkers_before(b, n) <= n * limit,
    decreases n,
{
    if n > 0 {
        lemma_checkers_bound(b, (n - 1) as nat, limit);
        let f = n - 1;
        assert(0 <= f / 25 < 2 && 0 <= f % 25 < 25);
        assert(cell(b, f) <= limit);
        assert((n - 1) * limit + limit == n * limit) by (nonlinear_arith);
    }
}

} // verus!

verus! {

// ---------------------------------------------------------------------------
// The 7-word evaluation key (4 bits per cell)
// ---------------------------------------------------------------------------

/// Position key used by the evaluator: 4 bits per cell, 8 cells per word.
/// Words 0..3 hold side 1 points 0..23, words 3..6 side 0 points 0..23,
/// word 6 the two bars.
#[derive(Clone, Copy, Debug, PartialEq, Eq, Hash)]
pub struct EvalPositionKey(pub [u32; 7]);

/// Eight 4-bit fields of `row`, starting at point `base`, packed into a word.
pub open spec fn pack_row(row: [u32; 25], base: int) -> u32 {
    (row[base] & 0xf) | ((row[base + 1] & 0xf) << 4u32) | ((row[base + 2] & 0xf) << 8u32) | ((
    row[base + 3] & 0xf) << 12u32) | ((row[base + 4] & 0xf) << 16u32) | ((row[base + 5] & 0xf)
        << 20u32) | ((row[base + 6] & 0xf) << 24u32) | ((row[base + 7] & 0xf) << 28u32)
}

/// The 4-bit field `n` of word `x`.
pub open spec fn nibble(x: u32, n: int) -> u32 {
    (x >> ((4 * n) as u32)) & 0xf
}

proof fn lemma_unpack(x0: u32, x1: u32, x2: u32, x3: u32, x4: u32, x5: u32, x6: u32, x7: u32)
    by (bit_vector)
    ensures
        ({
            let w = (x0 & 0xf) | ((x1 & 0xf) << 4u32) | ((x2 & 0xf) << 8u32) | ((x3 & 0xf)
                << 12u32) | ((x4 & 0xf) << 16u32) | ((x5 & 0xf) << 20u32) | ((x6 & 0xf) << 24u32)
                | ((x7 & 0xf) << 28u32);
            &&& (w >> 0u32) & 0xf == x0 & 0xf
            &&& (w >> 4u32) & 0xf == x1 & 0xf
            &&& (w >> 8u32) & 0xf == x2 & 0xf
            &&& (w >> 12u32) & 0xf == x3 & 0xf
            &&& (w >> 16u32) & 0xf == x4 & 0xf
            &&& (w >> 20u32) & 0xf == x5 & 0xf
            &&& (w >> 24u32) & 0xf == x6 & 0xf
            &&& (w >> 28u32) & 0xf == x7 & 0xf
        }),
        ((x0 & 0xf) | ((x1 & 0xf) << 4u32)) & 0xf == x0 & 0xf,
        (((x0 & 0xf) | ((x1 & 0xf) << 4u32)) >> 4u32) & 0xf == x1 & 0xf,
{
}

proof fn lemma_small_nibble(x: u32)
    by (bit_vector)
    requires
        x < 16,
    ensures
        x & 0xf == x,
{
}

impl EvalPositionKey {
    /// Pack a board into the evaluation key (each cell taken modulo 16).
    pub fn from_board(board: &Board) -> (key: Self)
        ensures
            forall|i: int|
                #![trigger key.0[i]]
                0 <= i < 3 ==> key.0[i] == pack_row(board[1], 8 * i) && key.0[i + 3] == pack_row(
                    board[0],
                    8 * i,
                ),
            key.0[6] == (board[0][24] & 0xf) | ((board[1][24] & 0xf) << 4u32),
    {
        let mut data = [0u32; 7];
        let mut i: usize = 0;
        while i < 3
            invariant
                i <= 3,
                forall|m: int|
                    #![trigger data[m]]
                    0 <= m < i ==> data[m] == pack_row(board[1], 8 * m) && data[m + 3] == pack_row(
                        board[0],
                        8 * m,
                    ),
            decreases 3 - i,
        {
            let j = i * 8;
            let ghost prev = data;
            data[i] = (board[1][j] & 0x0F) | ((board[1][j + 1] & 0x0F) << 4u32) | ((board[1][j + 2]
                & 0x0F) << 8u32) | ((board[1][j + 3] & 0x0F) << 12u32) | ((board[1][j + 4] & 0x0F) << 16u32)
                | ((board[1][j + 5] & 0x0F) << 20u32) | ((board[1][j + 6] & 0x0F) << 24u32) | ((board[1][j
                + 7] & 0x0F) << 28u32);
            data[i + 3] = (board[0][j] & 0x0F) | ((board[0][j + 1] & 0x0F) << 4u32) | ((board[0][j
                + 2] & 0x0F) << 8u32) | ((board[0][j + 3] & 0x0F) << 12u32) | ((board[0][j + 4] & 0x0F)
                << 16u32) | ((board[0][j + 5] & 0x0F) << 20u32) | ((board[0][j + 6] & 0x0F) << 24u32) | ((
            board[0][j + 7] & 0x0F) << 28u32);
            proof {
                assert forall|m: int|
                    #![trigger data[m]]
                    0 <= m < i + 1 implies data[m] == pack_row(board[1], 8 * m) && data[m + 3]
                    == pack_row(board[0], 8 * m) by {
                    if m < i {
                        assert(prev[m] == pack_row(board[1], 8 * m));
                    }
                }
            }
            i = i + 1;
        }
        let ghost before = data;
        data[6] = (board[0][24] & 0x0F) | ((board[1][24] & 0x0F) << 4u32);
        proof {
            assert forall|m: int|
                #![trigger data[m]]
                0 <= m < 3 implies data[m] == pack_row(board[1], 8 * m) && data[m + 3] == pack_row(
                board[0],
                8 * m,
            ) by {
                assert(before[m] == pack_row(board[1], 8 * m));
            }
        }
        EvalPositionKey(data)
    }

    /// Unpack the evaluation key into a board.
    pub fn to_board(&self) -> (board: Board)
        ensures
            forall|i: int, n: int|
                #![trigger nibble(self.0[i], n)]
                0 <= i < 3 && 0 <= n < 8 ==> board[1][8 * i + n] == nibble(self.0[i], n)
                    && board[0][8 * i + n] == nibble(self.0[i + 3], n),
            board[0][24] == self.0[6] & 0xf,
            board[1][24] == (self.0[6] >> 4u32) & 0xf,
    {
        let mut board: Board = [[0u32; 25]; 2];
        let mut i: usize = 0;
        while i < 3
            invariant
                i <= 3,
                forall|m: int, n: int|
                    #![trigger nibble(self.0[m], n)]
                    0 <= m < i && 0 <= n < 8 ==> board[1][8 * m + n] == nibble(self.0[m], n)
                        && board[0][8 * m + n] == nibble(self.0[m + 3], n),
            decreases 3 - i,
        {
            let j = i * 8;
            let w1 = self.0[i];
            let w0 = self.0[i + 3];
            let mut n: usize = 0;
            while n < 8
                invariant
                    i < 3,
                    j == 8 * i,
                    w1 == self.0[i as int],
                    w0 == self.0[i + 3],
                    n <= 8,
                    forall|m: int, q: int|
                        #![trigger nibble(self.0[m], q)]
                        0 <= m < i && 0 <= q < 8 ==> board[1][8 * m + q] == nibble(self.0[m], q)
                            && board[0][8 * m + q] == nibble(self.0[m + 3], q),
                    forall|q: int|
                        #![trigger nibble(self.0[i as int], q)]
                        0 <= q < n ==> board[1][j + q] == nibble(self.0[i as int], q) && board[0][j
                            + q] == nibble(self.0[i + 3], q),
                decreases 8 - n,
            {
                let shift = (4 * n) as u32;
                let ghost prev = board;
                board[1][j + n] = (w1 >> shift) & 0x0F;
                board[0][j + n] = (w0 >> shift) & 0x0F;
                proof {
                    assert(board[1][j + n] == nibble(self.0[i as int], n as int));
                    assert(board[0][j + n] == nibble(self.0[i + 3], n as int));
                    assert forall|q: int|
                        #![trigger nibble(self.0[i as int], q)]
                        0 <= q < n + 1 implies board[1][j + q] == nibble(self.0[i as int], q)
                        && board[0][j + q] == nibble(self.0[i + 3], q) by {
                        if q < n {
                            assert(prev[1][j + q] == nibble(self.0[i as int], q));
                            assert(board[1][j + q] == prev[1][j + q]);
                            assert(board[0][j + q] == prev[0][j + q]);
                        }
                    }
                    assert forall|m: int, q: int|
                        #![trigger nibble(self.0[m], q)]
                        0 <= m < i && 0 <= q < 8 implies board[1][8 * m + q] == nibble(self.0[m], q)
                        && board[0][8 * m + q] == nibble(self.0[m + 3], q) by {
                        assert(prev[1][8 * m + q] == nibble(self.0[m], q));
                        assert(8 * m + q < j);
                        assert(board[1][8 * m + q] == prev[1][8 * m + q]);
                        assert(board[0][8 * m + q] == prev[0][8 * m + q]);
                    }
                }
                n = n + 1;
            }
            proof {
                assert forall|m: int, q: int|
                    #![trigger nibble(self.0[m], q)]
                    0 <= m <= i && 0 <= q < 8 implies board[1][8 * m + q] == nibble(self.0[m], q)
                    && board[0][8 * m + q] == nibble(self.0[m + 3], q) by {
                    if m == i {
                        assert(8 * m + q == j + q);
                        assert(board[1][j + q] == nibble(self.0[i as int], q));
                        assert(board[0][j + q] == nibble(self.0[i + 3], q));
                    } else {
                        assert(board[1][8 * m + q] == nibble(self.0[m], q));
                    }
                }
            }
            i = i + 1;
        }
        board[0][24] = self.0[6] & 0x0F;
        board[1][24] = (self.0[6] >> 4u32) & 0x0F;
        board
    }
}

proof fn lemma_nibble_of_pack(row: [u32; 25], base: int, n: int)
    requires
        0 <= base,
        base + 8 <= 25,
        0 <= n < 8,
    ensures
        nibble(pack_row(row, base), n) == row[base + n] & 0xf,
{
    lemma_unpack(
        row[base],
        row[base + 1],
        row[base + 2],
        row[base + 3],
        row[base + 4],
        row[base + 5],
        row[base + 6],
        row[base + 7],
    );
}

/// Packing a board into the evaluation key and unpacking it gives the board
/// back when every cell holds fewer than 16 checkers.
pub proof fn lemma_eval_key_roundtrip(b: Board, k: [u32; 7], back: Board)
    requires
        forall|s: int, p: int| 0 <= s < 2 && 0 <= p < 25 ==> b[s][p] < 16,
        forall|i: int|
            #![trigger k[i]]
            0 <= i < 3 ==> k[i] == pack_row(b[1], 8 * i) && k[i + 3] == pack_row(b[0], 8 * i),
        k[6] == (b[0][24] & 0xf) | ((b[1][24] & 0xf) << 4u32),
        forall|i: int, n: int|
            #![trigger nibble(k[i], n)]
            0 <= i < 3 && 0 <= n < 8 ==> back[1][8 * i + n] == nibble(k[i], n) && back[0][8 * i
                + n] == nibble(k[i + 3], n),
        back[0][24] == k[6] & 0xf,
        back[1][24] == (k[6] >> 4u32) & 0xf,
    ensures
        forall|s: int, p: int| 0 <= s < 2 && 0 <= p < 25 ==> back[s][p] == b[s][p],
{
    assert forall|s: int, p: int| 0 <= s < 2 && 0 <= p < 25 implies back[s][p] == b[s][p] by {
        lemma_small_nibble(b[s][p]);
        if p == 24 {
            lemma_unpack(b[0][24], b[1][24], 0, 0, 0, 0, 0, 0);
        } else {
            let i = p / 8;
            let n = p % 8;
            assert(p == 8 * i + n);
            if s == 1 {
                assert(back[1][8 * i + n] == nibble(k[i], n));
                assert(k[i] == pack_row(b[1], 8 * i));
                lemma_nibble_of_pack(b[1], 8 * i, n);
            } else {
                assert(back[1][8 * i + n] == nibble(k[i], n));
                assert(back[0][8 * i + n] == nibble(k[i + 3], n));
                assert(k[i] == pack_row(b[1], 8 * i));
                lemma_nibble_of_pack(b[0], 8 * i, n);
            }
        }
    }
}

} // verus!

verus! {

// ---------------------------------------------------------------------------
// Checker totals, pip counts and position validity
// ---------------------------------------------------------------------------

/// Sum of the first `n` points of a side.
pub open spec fn row_sum(row: [u32; 25], n: nat) -> nat
    decreases n,
{
    if n == 0 {
        0
    } else {
        row_sum(row, (n - 1) as nat) + row[n - 1] as nat
    }
}

/// Number of checkers of side `s` (tray and bar included).
pub open spec fn side_checkers(b: Board, s: int) -> nat {
    row_sum(b[s], 25)
}

/// Pips of the first `n` points of a side: each checker on point `p` counts `p`.
pub open spec fn row_pips(row: [u32; 25], n: nat) -> nat
    decreases n,
{
    if n == 0 {
        0
    } else {
        row_pips(row, (n - 1) as nat) + (row[n - 1] as nat) * ((n - 1) as nat)
    }
}

/// Pip count of side `s`.
pub open spec fn side_pips(b: Board, s: int) -> nat {
    row_pips(b[s], 25)
}

/// The validity rule of `check_position`: at most 15 checkers a side, no
/// point held by both sides (point `i` of side 0 facing point `24 - i` of
/// side 1), and not both sides on the bar against closed boards.
pub open spec fn position_ok(b: Board) -> bool {
    &&& side_checkers(b, 0) <= 15
    &&& side_checkers(b, 1) <= 15
    &&& forall|i: int| 0 <= i < 24 ==> !(b[0][i] > 0 && b[1][24 - i] > 0)
    &&& (exists|i: int| 0 <= i < 6 && (b[0][i] < 2 || b[1][i] < 2)) || b[0][24] == 0 || b[1][24]
        == 0
}

pub(crate) proof fn lemma_row_sum_mono(row: [u32; 25], m: nat, n: nat)
    requires
        m <= n,
    ensures
        row_sum(row, m) <= row_sum(row, n),
    decreases n,
{
    if m < n {
        lemma_row_sum_mono(row, m, (n - 1) as nat);
    }
}

proof fn lemma_row_pips_mono(row: [u32; 25], m: nat, n: nat)
    requires
        m <= n,
    ensures
        row_pips(row, m) <= row_pips(row, n),
    decreases n,
{
    if m < n {
        lemma_row_pips_mono(row, m, (n - 1) as nat);
    }
}

/// Check whether a board is a legal backgammon position.
pub fn check_position(board: &Board) -> (ok: bool)
    ensures
        ok == position_ok(*board),
{
    let mut ac0: u64 = 0;
    let mut ac1: u64 = 0;
    let mut i: usize = 0;
    while i < 25
        invariant
            i <= 25,
            ac0 == row_sum(board[0], i as nat),
            ac1 == row_sum(board[1], i as nat),
            ac0 <= 15,
            ac1 <= 15,
        decreases 25 - i,
    {
        ac0 = ac0 + board[0][i] as u64;
        ac1 = ac1 + board[1][i] as u64;
        if ac0 > 15 || ac1 > 15 {
            proof {
                lemma_row_sum_mono(board[0], (i + 1) as nat, 25);
                lemma_row_sum_mono(board[1], (i + 1) as nat, 25);
            }
            return false;
        }
        i = i + 1;
    }
    let mut i: usize = 0;
    while i < 24
        invariant
            i <= 24,
            side_checkers(*board, 0) <= 15,
            side_checkers(*board, 1) <= 15,
            forall|k: int| 0 <= k < i ==> !(board[0][k] > 0 && board[1][24 - k] > 0),
        decreases 24 - i,
    {
        if board[0][i] > 0 && board[1][24 - i] > 0 {
            return false;
        }
        i = i + 1;
    }
    let mut i: usize = 0;
    while i < 6
        invariant
            i <= 6,
            side_checkers(*board, 0) <= 15,
            side_checkers(*board, 1) <= 15,
            forall|k: int| 0 <= k < 24 ==> !(board[0][k] > 0 && board[1][24 - k] > 0),
            forall|k: int| 0 <= k < i ==> !(board[0][k] < 2 || board[1][k] < 2),
        decreases 6 - i,
    {
        if board[0][i] < 2 || board[1][i] < 2 {
            assert(0 <= i < 6 && (board[0][i as int] < 2 || board[1][i as int] < 2));
            return true;
        }
        i = i + 1;
    }
    if board[0][24] == 0 || board[1][24] == 0 {
        return true;
    }
    false
}

/// Pip count of both sides: each checker on point `p` (1..=24) counts `p`.
pub fn pip_count(board: &Board) -> (pips: [u32; 2])
    requires
        side_pips(*board, 0) <= u32::MAX,
        side_pips(*board, 1) <= u32::MAX,
    ensures
        pips[0] == side_pips(*board, 0),
        pips[1] == side_pips(*board, 1),
{
    let mut pips = [0u32; 2];
    let mut point: usize = 1;
    proof {
        let z = ((1 - 1) as nat);
        assert(z == 0);
        assert((board[0][0] as nat) * z == 0) by (nonlinear_arith)
            requires
                z == 0,
        ;
        assert((board[1][0] as nat) * z == 0) by (nonlinear_arith)
            requires
                z == 0,
        ;
        reveal_with_fuel(row_pips, 2);
        assert(row_pips(board[0], 1) == row_pips(board[0], 0) + (board[0][0] as nat) * z);
        assert(row_pips(board[0], 1) == 0 && row_pips(board[1], 1) == 0);
    }
    while point < 25
        invariant
            1 <= point <= 25,
            side_pips(*board, 0) <= u32::MAX,
            side_pips(*board, 1) <= u32::MAX,
            pips[0] == row_pips(board[0], point as nat),
            pips[1] == row_pips(board[1], point as nat),
        decreases 25 - point,
    {
        proof {
            lemma_row_pips_mono(board[0], (point + 1) as nat, 25);
            lemma_row_pips_mono(board[1], (point + 1) as nat, 25);
        }
        pips[0] = pips[0] + board[0][point] * point as u32;
        pips[1] = pips[1] + board[1][point] * point as u32;
        point = point + 1;
    }
    pips
}

} // verus!

verus! {

// ---------------------------------------------------------------------------
// Moves
// ---------------------------------------------------------------------------

/// A complete move: up to four `(source, destination)` sub-moves (a
/// destination of 0 means the checker is borne off), the number of checkers
/// moved, the pips moved, and the key of the resulting position.
#[derive(Clone, Copy, Debug, PartialEq, Eq)]
pub struct Move {
    pub from_to: [Option<(u8, u8)>; 4],
    pub c_moves: u8,
    pub c_pips: u8,
    pub key: PositionKey,
}

impl Move {
    /// A move with no sub-moves.
    pub fn empty() -> (mv: Self)
        ensures
            forall|i: int| 0 <= i < 4 ==> mv.from_to[i] is None,
            mv.c_moves == 0,
            mv.c_pips == 0,
            forall|i: int| 0 <= i < 10 ==> mv.key.0[i] == 0,
    {
        Move { from_to: [None; 4], c_moves: 0, c_pips: 0, key: PositionKey([0u8; 10]) }
    }
}

/// The text of one sub-move: `src->dst`, or `src->off` when it bears off.
pub open spec fn sub_move_text(src: u8, dst: u8) -> Seq<u8> {
    decimal(src as nat) + seq![45u8, 62u8] + if dst == 0 || src - dst > 24 {
        seq![111u8, 102u8, 102u8]
    } else {
        decimal(dst as nat)
    }
}

/// The texts of the recorded sub-moves among the first `n`, joined by `, `.
pub open spec fn sub_moves_text(from_to: Seq<Option<(u8, u8)>>, n: int) -> Seq<u8>
    decreases n,
{
    if n <= 0 {
        Seq::empty()
    } else {
        let rest = sub_moves_text(from_to, n - 1);
        match from_to[n - 1] {
            Some((s, d)) => if rest.len() == 0 {
                sub_move_text(s, d)
            } else {
                rest + seq![44u8, 32u8] + sub_move_text(s, d)
            },
            None => rest,
        }
    }
}

/// The text of a move: `Move(<sub-moves> pips=<pips>)`.
pub open spec fn move_display(mv: Move) -> Seq<u8> {
    seq![77u8, 111u8, 118u8, 101u8, 40u8] + sub_moves_text(mv.from_to@, 4) + seq![
        32u8,
        112u8,
        105u8,
        112u8,
        115u8,
        61u8,
    ] + decimal(mv.c_pips as nat) + seq![41u8]
}

proof fn lemma_sub_moves_ascii(from_to: Seq<Option<(u8, u8)>>, n: int)
    ensures
        all_ascii(sub_moves_text(from_to, n)),
    decreases n,
{
    if n > 0 {
        lemma_sub_moves_ascii(from_to, n - 1);
        if let Some((s, d)) = from_to[n - 1] {
            lemma_decimal_is_ascii(s as nat);
            lemma_decimal_is_ascii(d as nat);
        }
    }
}

impl Move {
    /// The text of the move, such as `Move(6->5, 3->1 pips=5)`.
    pub fn to_text(&self) -> (s: String)
        ensures
            s@ == ascii_chars(move_display(*self)),
    {
        let mut out: Vec<u8> = Vec::new();
        out.push(77);
        out.push(111);
        out.push(118);
        out.push(101);
        out.push(40);
        let mut i: usize = 0;
        while i < 4
            invariant
                i <= 4,
                out@ == seq![77u8, 111u8, 118u8, 101u8, 40u8] + sub_moves_text(self.from_to@, i as int),
            decreases 4 - i,
        {
            if let Some((src, dst)) = self.from_to[i] {
                let ghost before = out@;
                if out.len() > 5 {
                    out.push(44);
                    out.push(32);
                }
                push_decimal(&mut out, src as u64);
                out.push(45);
                out.push(62);
                if dst == 0 || src as i16 - dst as i16 > 24 {
                    out.push(111);
                    out.push(102);
                    out.push(102);
                } else {
                    push_decimal(&mut out, dst as u64);
                }
                proof {
                    assert(out@ =~= seq![77u8, 111u8, 118u8, 101u8, 40u8] + sub_moves_text(
                        self.from_to@,
                        i + 1,
                    ));
                }
            }
            i = i + 1;
        }
        out.push(32);
        out.push(112);
        out.push(105);
        out.push(112);
        out.push(115);
        out.push(61);
        push_decimal(&mut out, self.c_pips as u64);
        out.push(41);
        proof {
            assert(out@ =~= move_display(*self));
            lemma_sub_moves_ascii(self.from_to@, 4);
            lemma_decimal_is_ascii(self.c_pips as nat);
        }
        ascii_to_string(out)
    }
}

/// A list of moves.
#[derive(Clone, Debug)]
pub struct MoveList {
    pub moves: Vec<Move>,
}

impl MoveList {
    pub fn new() -> (l: Self)
        ensures
            l.moves@ == Seq::<Move>::empty(),
    {
        MoveList { moves: Vec::new() }
    }

    pub fn with_capacity(cap: usize) -> (l: Self)
        ensures
            l.moves@ == Seq::<Move>::empty(),
    {
        MoveList { moves: Vec::with_capacity(cap) }
    }

    pub fn len(&self) -> (n: usize)
        ensures
            n == self.moves@.len(),
    {
        self.moves.len()
    }

    pub fn is_empty(&self) -> (e: bool)
        ensures
            e == (self.moves@.len() == 0),
    {
        self.moves.len() == 0
    }

    pub fn push(&mut self, mv: Move)
        ensures
            final(self).moves@ == old(self).moves@.push(mv),
    {
        self.moves.push(mv);
    }

    pub fn clear(&mut self)
        ensures
            final(self).moves@ == Seq::<Move>::empty(),
    {
        self.moves.clear();
    }
}

impl Default for MoveList {
    fn default() -> (l: Self)
        ensures
            l.moves@ == Seq::<Move>::empty(),
    {
        MoveList::new()
    }
}

} // verus!
