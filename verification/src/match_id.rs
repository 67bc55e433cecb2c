//! MatchIDs: the match state packed into 72 bits and written as twelve
//! base64 characters.
use vstd::prelude::*;
use vstd::string::StringSliceAdditionalSpecFns;
use crate::position_id::{b64_char, b64_value, base64_decode, base64_encode, decoded_id_byte, id_sextet, id_value, lemma_regroup};
use crate::text::{all_ascii, ascii_chars, ascii_to_string};
use crate::types::{byte_bit, Board};

verus! {

/// Backgammon variation.
#[derive(Clone, Copy, Debug, PartialEq, Eq, Structural)]
pub enum Variation {
    Standard,
    Nackgammon,
    Hypergammon1,
    Hypergammon2,
    Hypergammon3,
}

/// Game state.
#[derive(Clone, Copy, Debug, PartialEq, Eq, Structural)]
pub enum GameState {
    NoGame,
    Playing,
    Over,
    Resigned,
    Drop,
}

/// Full match state.
#[derive(Clone, Copy, Debug)]
pub struct MatchState {
    pub board: Board,
    pub dice: (u8, u8),
    pub f_turn: bool,
    pub f_resigned: i32,
    pub f_resignation_declined: bool,
    pub f_doubled: bool,
    pub c_games: u32,
    pub f_move: bool,
    pub f_cube_owner: i32,
    pub f_crawford: bool,
    pub f_post_crawford: bool,
    pub n_match_to: i32,
    pub an_score: [i32; 2],
    pub n_cube: u32,
    pub c_beavers: u32,
    pub bgv: Variation,
    pub f_cube_use: bool,
    pub f_jacoby: bool,
    pub gs: GameState,
}

/// Length of a MatchID string.
pub const MATCH_ID_LEN: usize = 12;

/// Bit `j` of a byte string, or `false` past its end.
pub open spec fn kbit(k: Seq<u8>, j: int) -> bool {
    j / 8 < k.len() && byte_bit(k[j / 8], j % 8)
}

/// Bit `i` (least significant first) of an unsigned value.
pub open spec fn ubit(c: u32, i: int) -> bool {
    (c >> (i as u32)) & 1u32 == 1u32
}

/// Bit `i` of the two's complement form of a signed value.
pub open spec fn ibit(c: i32, i: int) -> bool {
    ubit(c as u32, i)
}

/// The value of the `n` bits of `k` that start at bit `pos`, the first of
/// them least significant.
pub open spec fn field(k: Seq<u8>, pos: int, n: nat) -> u32
    decreases n,
{
    if n == 0 {
        0
    } else {
        field(k, pos, (n - 1) as nat) | (if kbit(k, pos + n - 1) {
            1u32 << ((n - 1) as u32)
        } else {
            0u32
        })
    }
}

/// The base-2 logarithm of a cube value, rounded down (0 for 0 and 1).
pub open spec fn cube_log(n: u32) -> nat
    decreases n,
{
    if n > 1 {
        1 + cube_log(n / 2)
    } else {
        0
    }
}

proof fn lemma_cube_log_bound(n: u32)
    ensures
        cube_log(n) <= n,
    decreases n,
{
    if n > 1 {
        lemma_cube_log_bound(n / 2);
    }
}

/// The index of a game state.
pub open spec fn gs_index(gs: GameState) -> i32 {
    match gs {
        GameState::NoGame => 0,
        GameState::Playing => 1,
        GameState::Over => 2,
        GameState::Resigned => 3,
        GameState::Drop => 4,
    }
}

pub open spec fn bool_i32(b: bool) -> i32 {
    if b {
        1
    } else {
        0
    }
}

pub open spec fn high_die(d: (u8, u8)) -> u8 {
    if d.0 >= d.1 {
        d.0
    } else {
        d.1
    }
}

pub open spec fn low_die(d: (u8, u8)) -> u8 {
    if d.0 >= d.1 {
        d.1
    } else {
        d.0
    }
}

/// Bit `j` of the MatchID key of `s`.
#[verifier::opaque]
pub open spec fn state_bit(s: MatchState, j: int) -> bool {
    if j < 4 {
        ibit(cube_log(s.n_cube) as i32, j)
    } else if j < 6 {
        ibit(s.f_cube_owner & 3i32, j - 4)
    } else if j == 6 {
        ibit(bool_i32(s.f_move), j - 6)
    } else if j == 7 {
        ibit(bool_i32(s.f_crawford), j - 7)
    } else if j < 11 {
        ibit(gs_index(s.gs), j - 8)
    } else if j == 11 {
        ibit(bool_i32(s.f_turn), j - 11)
    } else if j == 12 {
        ibit(bool_i32(s.f_doubled), j - 12)
    } else if j < 15 {
        ibit(s.f_resigned, j - 13)
    } else if j < 18 {
        ibit(high_die(s.dice) as i32 & 7i32, j - 15)
    } else if j < 21 {
        ibit(low_die(s.dice) as i32 & 7i32, j - 18)
    } else if j < 36 {
        ibit(s.n_match_to & 0x7fffi32, j - 21)
    } else if j < 51 {
        ibit(s.an_score[0] & 0x7fffi32, j - 36)
    } else if j < 66 {
        ibit(s.an_score[1] & 0x7fffi32, j - 51)
    } else if j == 66 {
        ibit(bool_i32(!s.f_jacoby), j - 66)
    } else {
        false
    }
}

/// The byte whose bits, least significant first, are `b0` to `b7`.
pub open spec fn pack8(b0: bool, b1: bool, b2: bool, b3: bool, b4: bool, b5: bool, b6: bool, b7: bool) -> u8 {
    (if b0 { 1u8 } else { 0u8 }) | (if b1 { 2u8 } else { 0u8 }) | (if b2 { 4u8 } else { 0u8 }) | (if b3 {
        8u8
    } else {
        0u8
    }) | (if b4 { 16u8 } else { 0u8 }) | (if b5 { 32u8 } else { 0u8 }) | (if b6 { 64u8 } else { 0u8 }) | (
    if b7 {
        128u8
    } else {
        0u8
    })
}

/// The 9-byte MatchID key of `s`: byte `i` holds the state's bits `8 * i`
/// to `8 * i + 7`.
#[verifier::opaque]
pub open spec fn state_key(s: MatchState) -> Seq<u8> {
    Seq::new(
        9,
        |i: int|
            pack8(
                state_bit(s, 8 * i),
                state_bit(s, 8 * i + 1),
                state_bit(s, 8 * i + 2),
                state_bit(s, 8 * i + 3),
                state_bit(s, 8 * i + 4),
                state_bit(s, 8 * i + 5),
                state_bit(s, 8 * i + 6),
                state_bit(s, 8 * i + 7),
            ),
    )
}

/// The twelve characters of the MatchID of the 9-byte key `k`.
#[verifier::opaque]
pub open spec fn match_id_bytes(k: Seq<u8>) -> Seq<u8> {
    Seq::new(12, |i: int| b64_char(id_sextet(k, i) & 0x3fu8))
}

/// True when `bytes` is a well-formed MatchID: 12 base64 characters.
pub open spec fn valid_match_id(bytes: Seq<u8>) -> bool {
    bytes.len() == 12 && forall|i: int| 0 <= i < 12 ==> b64_value(#[trigger] bytes[i]) is Some
}

/// The 9-byte key a valid MatchID decodes to.
#[verifier::opaque]
pub open spec fn decoded_match_key(bytes: Seq<u8>) -> Seq<u8> {
    Seq::new(9, |i: int| decoded_id_byte(bytes, i))
}

/// The game state of index `v`; unknown indices read as `NoGame`.
pub open spec fn gs_of(v: u32) -> GameState {
    if v == 1 {
        GameState::Playing
    } else if v == 2 {
        GameState::Over
    } else if v == 3 {
        GameState::Resigned
    } else if v == 4 {
        GameState::Drop
    } else {
        GameState::NoGame
    }
}

/// The cube owner stored in two bits: 0 or 1, anything else centred (-1).
pub open spec fn owner_of(v: u32) -> i32 {
    if v == 0 {
        0
    } else if v == 1 {
        1
    } else {
        -1i32
    }
}

/// The match state that the key `k` describes, on `board`.
pub open spec fn decoded_state(k: Seq<u8>, board: Board) -> MatchState {
    MatchState {
        board,
        dice: (field(k, 15, 3) as u8, field(k, 18, 3) as u8),
        f_turn: field(k, 11, 1) != 0,
        f_resigned: field(k, 13, 2) as i32,
        f_resignation_declined: false,
        f_doubled: field(k, 12, 1) != 0,
        c_games: 0,
        f_move: field(k, 6, 1) != 0,
        f_cube_owner: owner_of(field(k, 4, 2)),
        f_crawford: field(k, 7, 1) != 0,
        f_post_crawford: false,
        n_match_to: field(k, 21, 15) as i32,
        an_score: [field(k, 36, 15) as i32, field(k, 51, 15) as i32],
        n_cube: 1u32 << field(k, 0, 4),
        c_beavers: 0,
        bgv: Variation::Standard,
        f_cube_use: true,
        f_jacoby: field(k, 66, 1) == 0,
        gs: gs_of(field(k, 8, 3)),
    }
}

proof fn lemma_update_bit(b: u8, r: u8, v: bool, q: u8)
    by (bit_vector)
    requires
        r < 8,
        q < 8,
    ensures
        (((b & !(1u8 << r)) | (if v { 1u8 << r } else { 0u8 })) >> q) & 1u8 == (if q == r {
            if v { 1u8 } else { 0u8 }
        } else {
            (b >> q) & 1u8
        }),
{
}

proof fn lemma_zero_bits(q: u8)
    by (bit_vector)
    requires
        q < 8,
    ensures
        (0u8 >> q) & 1u8 == 0u8,
{
}

proof fn lemma_and_one(x: u8, y: u32)
    by (bit_vector)
    ensures
        (x & 1u8 != 0u8) == (x & 1u8 == 1u8),
        (y & 1u32 != 0u32) == (y & 1u32 == 1u32),
{
}

/// The logarithm of a cube value, rounded down.
pub fn log_cube(n: u32) -> (r: u32)
    ensures
        r as nat == cube_log(n),
{
    let ghost n0 = n;
    let mut n = n;
    let mut i: u32 = 0;
    proof {
        lemma_cube_log_bound(n0);
    }
    while n > 1
        invariant
            i + cube_log(n) == cube_log(n0),
            cube_log(n0) <= n0,
        decreases n,
    {
        assert(n >> 1 == n / 2) by (bit_vector);
        n = n >> 1;
        i = i + 1;
    }
    i
}

/// Write the low `n_bits` bits of `content` into `pc`, starting at bit
/// `bit_pos`; bits past the end of `pc` are dropped.
pub fn set_bits(pc: &mut [u8; 9], bit_pos: u32, n_bits: u32, content: i32)
    requires
        n_bits <= 32,
        bit_pos + n_bits <= u32::MAX,
    ensures
        forall|j: int|
            0 <= j < 72 ==> #[trigger] kbit(final(pc)@, j) == if bit_pos <= j < bit_pos + n_bits {
                ibit(content, j - bit_pos)
            } else {
                kbit(old(pc)@, j)
            },
{
    let c = content as u32;
    let mut i: u32 = 0;
    while i < n_bits
        invariant
            i <= n_bits <= 32,
            bit_pos + n_bits <= u32::MAX,
            c == content as u32,
            forall|j: int|
                0 <= j < 72 ==> #[trigger] kbit(pc@, j) == if bit_pos <= j < bit_pos + i {
                    ibit(content, j - bit_pos)
                } else {
                    kbit(old(pc)@, j)
                },
        decreases n_bits - i,
    {
        let k = ((bit_pos + i) / 8) as usize;
        let r = ((bit_pos + i) % 8) as u8;
        let v = (c >> i) & 1 != 0;
        let bit: u8 = if v {
            1u8 << r
        } else {
            0
        };
        if k < 9 {
            let ghost before = pc@;
            let b = pc[k];
            pc[k] = (b & !(1u8 << r)) | bit;
            proof {
                lemma_and_one(0u8, c >> i);
                assert forall|j: int| 0 <= j < 72 implies #[trigger] kbit(pc@, j) == if bit_pos <= j
                    < bit_pos + i + 1 {
                    ibit(content, j - bit_pos)
                } else {
                    kbit(old(pc)@, j)
                } by {
                    if j / 8 == k {
                        lemma_update_bit(b, r, v, (j % 8) as u8);
                        assert(pc@[j / 8] == (b & !(1u8 << r)) | bit);
                        assert(before[j / 8] == b);
                        if j == bit_pos + i {
                            assert(j % 8 == r);
                            assert(kbit(pc@, j) == v);
                            assert(ibit(content, j - bit_pos) == v);
                        } else {
                            assert(j % 8 != r);
                            assert(kbit(before, j) == kbit(pc@, j));
                        }
                    } else {
                        assert(pc@[j / 8] == before[j / 8]);
                        assert(kbit(before, j) == kbit(pc@, j));
                        if j == bit_pos + i {
                            assert(false);
                        }
                    }
                }
            }
        } else {
            proof {
                assert forall|j: int| 0 <= j < 72 implies #[trigger] kbit(pc@, j) == if bit_pos <= j
                    < bit_pos + i + 1 {
                    ibit(content, j - bit_pos)
                } else {
                    kbit(old(pc)@, j)
                } by {
                    if j == bit_pos + i {
                        assert(false);
                    }
                }
            }
        }
        i = i + 1;
    }
}

/// Read `n_bits` bits of `pc` starting at bit `bit_pos`, the first of them
/// least significant; bits past the end of `pc` read as zero.
pub fn get_bits(pc: &[u8; 9], bit_pos: u32, n_bits: u32) -> (r: u32)
    requires
        n_bits <= 32,
        bit_pos + n_bits <= u32::MAX,
    ensures
        r == field(pc@, bit_pos as int, n_bits as nat),
{
    let mut result: u32 = 0;
    let mut i: u32 = 0;
    while i < n_bits
        invariant
            i <= n_bits <= 32,
            bit_pos + n_bits <= u32::MAX,
            result == field(pc@, bit_pos as int, i as nat),
        decreases n_bits - i,
    {
        let k = ((bit_pos + i) / 8) as usize;
        let r = ((bit_pos + i) % 8) as u8;
        let ghost j = bit_pos + i;
        proof {
            assert(j / 8 == k && j % 8 == r);
        }
        if k < 9 && (pc[k] >> r) & 1 != 0 {
            proof {
                lemma_and_one(pc[k as int] >> r, 0);
            }
            result = result | (1u32 << i);
        } else {
            proof {
                if k < 9 {
                    lemma_and_one(pc[k as int] >> r, 0);
                }
                assert(result | 0u32 == result) by (bit_vector);
            }
        }
        i = i + 1;
    }
    result
}

proof fn lemma_byte_ext(a: u8, b: u8)
    by (bit_vector)
    requires
        (a >> 0u8) & 1u8 == (b >> 0u8) & 1u8,
        (a >> 1u8) & 1u8 == (b >> 1u8) & 1u8,
        (a >> 2u8) & 1u8 == (b >> 2u8) & 1u8,
        (a >> 3u8) & 1u8 == (b >> 3u8) & 1u8,
        (a >> 4u8) & 1u8 == (b >> 4u8) & 1u8,
        (a >> 5u8) & 1u8 == (b >> 5u8) & 1u8,
        (a >> 6u8) & 1u8 == (b >> 6u8) & 1u8,
        (a >> 7u8) & 1u8 == (b >> 7u8) & 1u8,
    ensures
        a == b,
{
}

proof fn lemma_bit_values(x: u8, q: u8)
    by (bit_vector)
    ensures
        (x >> q) & 1u8 == 0u8 || (x >> q) & 1u8 == 1u8,
{
}

/// Two 9-byte keys with the same 72 bits are equal.
proof fn lemma_key_ext(a: Seq<u8>, b: Seq<u8>)
    requires
        a.len() == 9,
        b.len() == 9,
        forall|j: int| 0 <= j < 72 ==> #[trigger] kbit(a, j) == kbit(b, j),
    ensures
        a == b,
{
    assert forall|i: int| 0 <= i < 9 implies a[i] == b[i] by {
        assert forall|q: int| 0 <= q < 8 implies #[trigger] byte_bit(a[i], q) == byte_bit(b[i], q) by {
            let j = 8 * i + q;
            assert(j / 8 == i && j % 8 == q);
            assert(kbit(a, j) == kbit(b, j));
        }
        assert forall|q: u8| q < 8 implies (a[i] >> q) & 1u8 == (b[i] >> q) & 1u8 by {
            assert(byte_bit(a[i], q as int) == byte_bit(b[i], q as int));
            lemma_bit_values(a[i], q);
            lemma_bit_values(b[i], q);
        }
        assert((a[i] >> 0u8) & 1u8 == (b[i] >> 0u8) & 1u8);
        assert((a[i] >> 1u8) & 1u8 == (b[i] >> 1u8) & 1u8);
        assert((a[i] >> 2u8) & 1u8 == (b[i] >> 2u8) & 1u8);
        assert((a[i] >> 3u8) & 1u8 == (b[i] >> 3u8) & 1u8);
        assert((a[i] >> 4u8) & 1u8 == (b[i] >> 4u8) & 1u8);
        assert((a[i] >> 5u8) & 1u8 == (b[i] >> 5u8) & 1u8);
        assert((a[i] >> 6u8) & 1u8 == (b[i] >> 6u8) & 1u8);
        assert((a[i] >> 7u8) & 1u8 == (b[i] >> 7u8) & 1u8);
        lemma_byte_ext(a[i], b[i]);
    }
    assert(a =~= b);
}

proof fn lemma_pack8(b0: bool, b1: bool, b2: bool, b3: bool, b4: bool, b5: bool, b6: bool, b7: bool)
    by (bit_vector)
    ensures
        ((pack8(b0, b1, b2, b3, b4, b5, b6, b7) >> 0u8) & 1u8 == 1u8) == b0,
        ((pack8(b0, b1, b2, b3, b4, b5, b6, b7) >> 1u8) & 1u8 == 1u8) == b1,
        ((pack8(b0, b1, b2, b3, b4, b5, b6, b7) >> 2u8) & 1u8 == 1u8) == b2,
        ((pack8(b0, b1, b2, b3, b4, b5, b6, b7) >> 3u8) & 1u8 == 1u8) == b3,
        ((pack8(b0, b1, b2, b3, b4, b5, b6, b7) >> 4u8) & 1u8 == 1u8) == b4,
        ((pack8(b0, b1, b2, b3, b4, b5, b6, b7) >> 5u8) & 1u8 == 1u8) == b5,
        ((pack8(b0, b1, b2, b3, b4, b5, b6, b7) >> 6u8) & 1u8 == 1u8) == b6,
        ((pack8(b0, b1, b2, b3, b4, b5, b6, b7) >> 7u8) & 1u8 == 1u8) == b7,
{
}

/// The bits of the state's key are the state's bits.
proof fn lemma_state_key_bits(s: MatchState)
    ensures
        state_key(s).len() == 9,
        forall|j: int| 0 <= j < 72 ==> #[trigger] kbit(state_key(s), j) == state_bit(s, j),
{
    reveal(state_key);
    let k = state_key(s);
    assert forall|j: int| 0 <= j < 72 implies #[trigger] kbit(k, j) == state_bit(s, j) by {
        let i = j / 8;
        let q = j % 8;
        lemma_pack8(
            state_bit(s, 8 * i),
            state_bit(s, 8 * i + 1),
            state_bit(s, 8 * i + 2),
            state_bit(s, 8 * i + 3),
            state_bit(s, 8 * i + 4),
            state_bit(s, 8 * i + 5),
            state_bit(s, 8 * i + 6),
            state_bit(s, 8 * i + 7),
        );
        assert(j == 8 * i + q);
    }
}

/// A 9-byte key that holds the state's bits is the state's key.
proof fn lemma_state_key(s: MatchState, k: Seq<u8>)
    requires
        k.len() == 9,
        forall|j: int| 0 <= j < 72 ==> #[trigger] kbit(k, j) == state_bit(s, j),
    ensures
        state_key(s) == k,
{
    lemma_state_key_bits(s);
    lemma_key_ext(state_key(s), k);
}

/// Decoding the MatchID of a 9-byte key gives the key back; every such
/// MatchID is well formed and ASCII.
pub proof fn lemma_match_key_roundtrip(k: Seq<u8>)
    requires
        k.len() == 9,
    ensures
        valid_match_id(match_id_bytes(k)),
        all_ascii(match_id_bytes(k)),
        decoded_match_key(match_id_bytes(k)) == k,
{
    reveal(match_id_bytes);
    reveal(decoded_match_key);
    let bytes = match_id_bytes(k);
    assert forall|i: int| 0 <= i < 12 implies b64_value(#[trigger] bytes[i]) == Some(
        id_sextet(k, i),
    ) && bytes[i] < 128 by {
        let c = (i / 4) * 3;
        lemma_regroup(k[c], k[c + 1], k[c + 2]);
    }
    assert forall|i: int| 0 <= i < 9 implies decoded_id_byte(bytes, i) == k[i] by {
        let c = (i / 3) * 3;
        lemma_regroup(k[c], k[c + 1], k[c + 2]);
    }
    assert(decoded_match_key(bytes) =~= k);
}

/// The MatchID of a 9-byte key.
pub fn match_id_from_key(key: &[u8; 9]) -> (id: String)
    ensures
        id@ == ascii_chars(match_id_bytes(key@)),
{
    let mut out: Vec<u8> = Vec::new();
    let mut i: usize = 0;
    while i < 3
        invariant
            i <= 3,
            out@.len() == 4 * i,
            forall|j: int| 0 <= j < out@.len() ==> out@[j] == match_id_bytes(key@)[j],
        decreases 3 - i,
    {
        let chunk = i * 3;
        let ghost n = out@.len() as int;
        out.push(base64_encode(key[chunk] >> 2));
        out.push(base64_encode(((key[chunk] & 0x03) << 4) | (key[chunk + 1] >> 4)));
        out.push(base64_encode(((key[chunk + 1] & 0x0f) << 2) | (key[chunk + 2] >> 6)));
        out.push(base64_encode(key[chunk + 2] & 0x3f));
        proof {
            reveal(match_id_bytes);
            assert((n + 0) / 4 == i && (n + 0) % 4 == 0);
            assert((n + 1) / 4 == i && (n + 1) % 4 == 1);
            assert((n + 2) / 4 == i && (n + 2) % 4 == 2);
            assert((n + 3) / 4 == i && (n + 3) % 4 == 3);
        }
        i = i + 1;
    }
    proof {
        reveal(match_id_bytes);
        assert(out@ =~= match_id_bytes(key@));
        lemma_match_key_roundtrip(key@);
    }
    ascii_to_string(out)
}

fn game_state_index(gs: GameState) -> (v: i32)
    ensures
        v == gs_index(gs),
{
    match gs {
        GameState::NoGame => 0,
        GameState::Playing => 1,
        GameState::Over => 2,
        GameState::Resigned => 3,
        GameState::Drop => 4,
    }
}

fn flag(b: bool) -> (v: i32)
    ensures
        v == bool_i32(b),
{
    if b {
        1
    } else {
        0
    }
}

/// Encode a match state as its 12-character MatchID.
pub fn match_id_from_state(state: &MatchState) -> (id: String)
    ensures
        id@ == ascii_chars(match_id_bytes(state_key(*state))),
{
    let mut key = [0u8; 9];
    let ghost k0 = key@;
    proof {
        assert forall|j: int| 0 <= j < 72 implies !#[trigger] kbit(k0, j) by {
            lemma_zero_bits((j % 8) as u8);
        }
    }
    let lc = log_cube(state.n_cube);
    proof {
        lemma_cube_log_bound(state.n_cube);
    }
    set_bits(&mut key, 0, 4, lc as i32);
    set_bits(&mut key, 4, 2, state.f_cube_owner & 0x3);
    set_bits(&mut key, 6, 1, flag(state.f_move));
    set_bits(&mut key, 7, 1, flag(state.f_crawford));
    set_bits(&mut key, 8, 3, game_state_index(state.gs));
    set_bits(&mut key, 11, 1, flag(state.f_turn));
    set_bits(&mut key, 12, 1, flag(state.f_doubled));
    set_bits(&mut key, 13, 2, state.f_resigned);
    let (d0, d1) = state.dice;
    let hi = if d0 >= d1 {
        d0
    } else {
        d1
    };
    let lo = if d0 >= d1 {
        d1
    } else {
        d0
    };
    set_bits(&mut key, 15, 3, hi as i32 & 0x7);
    set_bits(&mut key, 18, 3, lo as i32 & 0x7);
    set_bits(&mut key, 21, 15, state.n_match_to & 0x7FFF);
    set_bits(&mut key, 36, 15, state.an_score[0] & 0x7FFF);
    set_bits(&mut key, 51, 15, state.an_score[1] & 0x7FFF);
    set_bits(&mut key, 66, 1, flag(!state.f_jacoby));
    proof {
        reveal(state_bit);
        assert forall|j: int| 0 <= j < 72 implies #[trigger] kbit(key@, j) == state_bit(*state, j) by {
        }
        lemma_state_key(*state, key@);
    }
    match_id_from_key(&key)
}

proof fn lemma_small_field(k: Seq<u8>, pos: int, n: nat)
    requires
        n <= 15,
    ensures
        field(k, pos, n) < (1u32 << (n as u32)),
    decreases n,
{
    if n > 0 {
        lemma_small_field(k, pos, (n - 1) as nat);
        let f = field(k, pos, (n - 1) as nat);
        let m = (n - 1) as u32;
        assert(f < (1u32 << m) && m < 15 ==> (f | (1u32 << m)) < (1u32 << ((m + 1) as u32)) && f
            < (1u32 << ((m + 1) as u32))) by (bit_vector);
        assert(f | 0u32 == f) by (bit_vector);
        assert(((m + 1) as u32) == (n as u32));
    } else {
        assert(0u32 < (1u32 << 0u32)) by (bit_vector);
    }
}

/// Read the match state held in a 9-byte key, on `board`.
fn match_state_from_key(key: &[u8; 9], board: &Board) -> (m: MatchState)
    ensures
        m == decoded_state(key@, *board),
{
    let n_cube_log = get_bits(key, 0, 4);
    proof {
        lemma_small_field(key@, 0, 4);
        assert(1u32 << 4u32 == 16) by (bit_vector);
    }
    let n_cube: u32 = 1u32 << n_cube_log;
    let o = get_bits(key, 4, 2);
    let f_cube_owner: i32 = if o == 0 {
        0
    } else if o == 1 {
        1
    } else {
        -1
    };
    let f_move = get_bits(key, 6, 1) != 0;
    let f_crawford = get_bits(key, 7, 1) != 0;
    let g = get_bits(key, 8, 3);
    let gs = if g == 1 {
        GameState::Playing
    } else if g == 2 {
        GameState::Over
    } else if g == 3 {
        GameState::Resigned
    } else if g == 4 {
        GameState::Drop
    } else {
        GameState::NoGame
    };
    let f_turn = get_bits(key, 11, 1) != 0;
    let f_doubled = get_bits(key, 12, 1) != 0;
    let r = get_bits(key, 13, 2);
    proof {
        lemma_small_field(key@, 13, 2);
        lemma_small_field(key@, 15, 3);
        lemma_small_field(key@, 18, 3);
        lemma_small_field(key@, 21, 15);
        lemma_small_field(key@, 36, 15);
        lemma_small_field(key@, 51, 15);
        assert(1u32 << 2u32 == 4) by (bit_vector);
        assert(1u32 << 3u32 == 8) by (bit_vector);
        assert(1u32 << 15u32 == 0x8000) by (bit_vector);
    }
    let f_resigned = r as i32;
    let d0 = get_bits(key, 15, 3) as u8;
    let d1 = get_bits(key, 18, 3) as u8;
    let n_match_to = get_bits(key, 21, 15) as i32;
    let an_score0 = get_bits(key, 36, 15) as i32;
    let an_score1 = get_bits(key, 51, 15) as i32;
    let f_jacoby = get_bits(key, 66, 1) == 0;
    MatchState {
        board: *board,
        dice: (d0, d1),
        f_turn,
        f_resigned,
        f_resignation_declined: false,
        f_doubled,
        c_games: 0,
        f_move,
        f_cube_owner,
        f_crawford,
        f_post_crawford: false,
        n_match_to,
        an_score: [an_score0, an_score1],
        n_cube,
        c_beavers: 0,
        bgv: Variation::Standard,
        f_cube_use: true,
        f_jacoby,
        gs,
    }
}

/// Decode a 12-character MatchID into a match state on `board`; `None`
/// unless the text is exactly twelve base64 characters.
pub fn match_state_from_id(s: &str, board: &Board) -> (res: Option<MatchState>)
    ensures
        res is Some <==> valid_match_id(s.spec_bytes()),
        res matches Some(m) ==> m == decoded_state(decoded_match_key(s.spec_bytes()), *board),
{
    let bytes = s.as_bytes();
    if bytes.len() != MATCH_ID_LEN {
        return None;
    }
    let mut vals = [0u8; 12];
    let mut i: usize = 0;
    while i < 12
        invariant
            i <= 12,
            bytes@ == s.spec_bytes(),
            bytes@.len() == 12,
            forall|j: int| 0 <= j < i ==> b64_value(#[trigger] bytes@[j]) == Some(vals[j]),
        decreases 12 - i,
    {
        match base64_decode(bytes[i]) {
            Some(v) => {
                vals[i] = v;
            },
            None => {
                return None;
            },
        }
        i = i + 1;
    }
    let mut key = [0u8; 9];
    let mut g: usize = 0;
    while g < 3
        invariant
            g <= 3,
            bytes@ == s.spec_bytes(),
            valid_match_id(bytes@),
            forall|j: int| 0 <= j < 12 ==> vals[j] == id_value(bytes@, j),
            forall|j: int| 0 <= j < 3 * g ==> key[j] == decoded_id_byte(bytes@, j),
        decreases 3 - g,
    {
        let src = g * 4;
        key[g * 3] = (vals[src] << 2) | (vals[src + 1] >> 4);
        key[g * 3 + 1] = (vals[src + 1] << 4) | (vals[src + 2] >> 2);
        key[g * 3 + 2] = (vals[src + 2] << 6) | vals[src + 3];
        proof {
            let n = 3 * g as int;
            assert((n + 1) / 3 == g && (n + 1) % 3 == 1);
            assert((n + 2) / 3 == g && (n + 2) % 3 == 2);
        }
        g = g + 1;
    }
    proof {
        reveal(decoded_match_key);
        assert(key@ =~= decoded_match_key(bytes@));
    }
    Some(match_state_from_key(&key, board))
}

proof fn lemma_mask_step(c: u32, m: u32)
    by (bit_vector)
    requires
        m < 15,
    ensures
        (c & !(0xffff_ffffu32 << m)) | (if (c >> m) & 1u32 == 1u32 {
            1u32 << m
        } else {
            0u32
        }) == c & !(0xffff_ffffu32 << ((m + 1) as u32)),
{
}

/// A field whose bits are those of `c` reads as the low bits of `c`.
proof fn lemma_field_bits(k: Seq<u8>, pos: int, n: nat, c: u32)
    requires
        n <= 15,
        forall|i: int| 0 <= i < n ==> #[trigger] kbit(k, pos + i) == ubit(c, i),
    ensures
        field(k, pos, n) == c & !(0xffff_ffffu32 << (n as u32)),
    decreases n,
{
    if n == 0 {
        assert(c & !(0xffff_ffffu32 << 0u32) == 0u32) by (bit_vector);
    } else {
        let m = (n - 1) as u32;
        lemma_field_bits(k, pos, (n - 1) as nat, c);
        assert(kbit(k, pos + m) == ubit(c, m as int));
        lemma_mask_step(c, m);
        assert(((m + 1) as u32) == n as u32);
    }
}

proof fn lemma_cube_log_pow(e: u32)
    requires
        e < 16,
    ensures
        cube_log(1u32 << e) == e,
    decreases e,
{
    if e == 0 {
        assert(1u32 << 0u32 == 1u32) by (bit_vector);
    } else {
        let p = (e - 1) as u32;
        assert(p < 15 ==> (1u32 << ((p + 1) as u32)) > 1u32 && (1u32 << ((p + 1) as u32)) / 2 == 1u32
            << p) by (bit_vector);
        assert(e == ((p + 1) as u32));
        lemma_cube_log_pow(p);
    }
}

/// A cube value that a MatchID can hold: a power of two below 2^16.
pub open spec fn cube_value(n: u32) -> bool {
    exists|e: u32| e < 16 && n == 1u32 << e
}

/// A match state whose every encoded field fits its place in the MatchID.
pub open spec fn encodable(s: MatchState) -> bool {
    &&& cube_value(s.n_cube)
    &&& -1 <= s.f_cube_owner <= 1
    &&& 0 <= s.f_resigned <= 3
    &&& s.dice.0 <= 7
    &&& s.dice.1 <= 7
    &&& 0 <= s.n_match_to <= 0x7fff
    &&& 0 <= s.an_score[0] <= 0x7fff
    &&& 0 <= s.an_score[1] <= 0x7fff
}

/// The key holds the state's bits.
pub open spec fn holds_state(k: Seq<u8>, s: MatchState) -> bool {
    k.len() == 9 && forall|j: int| 0 <= j < 72 ==> #[trigger] kbit(k, j) == state_bit(s, j)
}

proof fn lemma_low_bits(x: u32)
    by (bit_vector)
    ensures
        x < 4 ==> x & !(0xffff_ffffu32 << 2u32) == x,
        x < 8 ==> x & !(0xffff_ffffu32 << 3u32) == x,
        x < 16 ==> x & !(0xffff_ffffu32 << 4u32) == x,
        x < 0x8000 ==> x & !(0xffff_ffffu32 << 15u32) == x,
{
}

proof fn lemma_rt_cube(s: MatchState, k: Seq<u8>)
    requires
        holds_state(k, s),
        cube_value(s.n_cube),
    ensures
        1u32 << field(k, 0, 4) == s.n_cube,
{
    reveal(state_bit);
    let e = choose|e: u32| e < 16 && s.n_cube == 1u32 << e;
    lemma_cube_log_pow(e);
    let lc = cube_log(s.n_cube) as i32;
    assert forall|i: int| 0 <= i < 4 implies #[trigger] kbit(k, 0 + i) == ubit(lc as u32, i) by {
        assert(kbit(k, i) == state_bit(s, i));
    }
    lemma_field_bits(k, 0, 4, lc as u32);
    lemma_low_bits(e);
}

proof fn lemma_one_bit(k: Seq<u8>, j: int)
    ensures
        (field(k, j, 1) != 0) == kbit(k, j),
{
    reveal_with_fuel(field, 2);
    assert(field(k, j, 1) == 0u32 | (if kbit(k, j) { 1u32 << 0u32 } else { 0u32 }));
    assert((0u32 | (1u32 << 0u32)) != 0u32 && (0u32 | 0u32) == 0u32) by (bit_vector);
}

proof fn lemma_flag_bit(b: bool)
    ensures
        ubit(bool_i32(b) as u32, 0) == b,
{
    assert(((1u32 >> 0u32) & 1u32 == 1u32) && !((0u32 >> 0u32) & 1u32 == 1u32)) by (bit_vector);
}

proof fn lemma_rt_flags(s: MatchState, k: Seq<u8>)
    requires
        holds_state(k, s),
    ensures
        (field(k, 6, 1) != 0) == s.f_move,
        (field(k, 7, 1) != 0) == s.f_crawford,
        (field(k, 11, 1) != 0) == s.f_turn,
        (field(k, 12, 1) != 0) == s.f_doubled,
        (field(k, 66, 1) == 0) == s.f_jacoby,
{
    reveal(state_bit);
    assert(kbit(k, 6) == state_bit(s, 6));
    assert(kbit(k, 7) == state_bit(s, 7));
    assert(kbit(k, 11) == state_bit(s, 11));
    assert(kbit(k, 12) == state_bit(s, 12));
    assert(kbit(k, 66) == state_bit(s, 66));
    lemma_flag_bit(s.f_move);
    lemma_flag_bit(s.f_crawford);
    lemma_flag_bit(s.f_turn);
    lemma_flag_bit(s.f_doubled);
    lemma_flag_bit(!s.f_jacoby);
    lemma_one_bit(k, 6);
    lemma_one_bit(k, 7);
    lemma_one_bit(k, 11);
    lemma_one_bit(k, 12);
    lemma_one_bit(k, 66);
}

proof fn lemma_rt_owner(s: MatchState, k: Seq<u8>)
    requires
        holds_state(k, s),
        -1 <= s.f_cube_owner <= 1,
    ensures
        owner_of(field(k, 4, 2)) == s.f_cube_owner,
{
    reveal(state_bit);
    let ow = s.f_cube_owner & 3i32;
    assert forall|i: int| 0 <= i < 2 implies #[trigger] kbit(k, 4 + i) == ubit(ow as u32, i) by {
        assert(kbit(k, 4 + i) == state_bit(s, 4 + i));
    }
    lemma_field_bits(k, 4, 2, ow as u32);
    let o = s.f_cube_owner;
    assert(-1 <= o <= 1 ==> {
        let f = ((o & 3i32) as u32) & !(0xffff_ffffu32 << 2u32);
        &&& o == 0 ==> f == 0
        &&& o == 1 ==> f == 1
        &&& o == -1 ==> f == 3
    }) by (bit_vector);
}

proof fn lemma_rt_state(s: MatchState, k: Seq<u8>)
    requires
        holds_state(k, s),
        0 <= s.f_resigned <= 3,
    ensures
        gs_of(field(k, 8, 3)) == s.gs,
        field(k, 13, 2) as i32 == s.f_resigned,
{
    reveal(state_bit);
    let g = gs_index(s.gs);
    assert forall|i: int| 0 <= i < 3 implies #[trigger] kbit(k, 8 + i) == ubit(g as u32, i) by {
        assert(kbit(k, 8 + i) == state_bit(s, 8 + i));
    }
    lemma_field_bits(k, 8, 3, g as u32);
    lemma_low_bits(g as u32);
    assert forall|i: int| 0 <= i < 2 implies #[trigger] kbit(k, 13 + i) == ubit(s.f_resigned as u32, i) by {
        assert(kbit(k, 13 + i) == state_bit(s, 13 + i));
    }
    lemma_field_bits(k, 13, 2, s.f_resigned as u32);
    lemma_low_bits(s.f_resigned as u32);
}

proof fn lemma_small_die(x: u8)
    by (bit_vector)
    ensures
        x <= 7 ==> ((x as i32 & 7i32) as u32) == x as u32,
{
}

proof fn lemma_rt_dice(s: MatchState, k: Seq<u8>)
    requires
        holds_state(k, s),
        s.dice.0 <= 7,
        s.dice.1 <= 7,
    ensures
        (field(k, 15, 3) as u8, field(k, 18, 3) as u8) == (high_die(s.dice), low_die(s.dice)),
{
    reveal(state_bit);
    let hi = high_die(s.dice) as i32 & 7i32;
    let lo = low_die(s.dice) as i32 & 7i32;
    lemma_small_die(high_die(s.dice));
    lemma_small_die(low_die(s.dice));
    assert forall|i: int| 0 <= i < 3 implies #[trigger] kbit(k, 15 + i) == ubit(hi as u32, i) by {
        assert(kbit(k, 15 + i) == state_bit(s, 15 + i));
    }
    lemma_field_bits(k, 15, 3, hi as u32);
    assert forall|i: int| 0 <= i < 3 implies #[trigger] kbit(k, 18 + i) == ubit(lo as u32, i) by {
        assert(kbit(k, 18 + i) == state_bit(s, 18 + i));
    }
    lemma_field_bits(k, 18, 3, lo as u32);
    lemma_low_bits(high_die(s.dice) as u32);
    lemma_low_bits(low_die(s.dice) as u32);
}

proof fn lemma_small_count(x: i32)
    by (bit_vector)
    ensures
        0 <= x <= 0x7fff ==> ((x & 0x7fffi32) as u32) == x as u32,
{
}

proof fn lemma_rt_count(s: MatchState, k: Seq<u8>, pos: int, x: i32)
    requires
        holds_state(k, s),
        pos == 21 || pos == 36 || pos == 51,
        pos == 21 ==> x == s.n_match_to,
        pos == 36 ==> x == s.an_score[0],
        pos == 51 ==> x == s.an_score[1],
        0 <= x <= 0x7fff,
    ensures
        field(k, pos, 15) as i32 == x,
{
    reveal(state_bit);
    let m = x & 0x7fffi32;
    lemma_small_count(x);
    assert forall|i: int| 0 <= i < 15 implies #[trigger] kbit(k, pos + i) == ubit(m as u32, i) by {
        assert(kbit(k, pos + i) == state_bit(s, pos + i));
    }
    lemma_field_bits(k, pos, 15, m as u32);
    lemma_low_bits(x as u32);
}

/// Reading back the MatchID of a match state gives the state's cube value,
/// cube owner, turn and move flags, Crawford flag, game state, resignation,
/// dice (higher die first), match length, score and Jacoby flag, whenever
/// each of them fits its place in the MatchID.
pub proof fn lemma_match_id_roundtrip(s: MatchState, board: Board)
    requires
        encodable(s),
    ensures
        valid_match_id(match_id_bytes(state_key(s))),
        ({
            let d = decoded_state(decoded_match_key(match_id_bytes(state_key(s))), board);
            &&& d.board == board
            &&& d.dice == (high_die(s.dice), low_die(s.dice))
            &&& d.f_turn == s.f_turn
            &&& d.f_resigned == s.f_resigned
            &&& d.f_doubled == s.f_doubled
            &&& d.f_move == s.f_move
            &&& d.f_cube_owner == s.f_cube_owner
            &&& d.f_crawford == s.f_crawford
            &&& d.n_match_to == s.n_match_to
            &&& d.an_score == s.an_score
            &&& d.n_cube == s.n_cube
            &&& d.f_jacoby == s.f_jacoby
            &&& d.gs == s.gs
        }),
{
    let k = state_key(s);
    lemma_state_key_bits(s);
    lemma_match_key_roundtrip(k);
    assert(holds_state(k, s));
    lemma_rt_cube(s, k);
    lemma_rt_flags(s, k);
    lemma_rt_owner(s, k);
    lemma_rt_state(s, k);
    lemma_rt_dice(s, k);
    lemma_rt_count(s, k, 21, s.n_match_to);
    lemma_rt_count(s, k, 36, s.an_score[0]);
    lemma_rt_count(s, k, 51, s.an_score[1]);
    let d = decoded_state(k, board);
    assert(d.an_score =~= s.an_score);
}

} // verus!
