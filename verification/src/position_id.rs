//! PositionID strings: the 10-byte position key in gnubg's base64 alphabet.
use vstd::prelude::*;
use vstd::string::StringSliceAdditionalSpecFns;
use crate::text::{all_ascii, ascii_chars, ascii_to_string};
use crate::types::{
    board_from_old_key, cell, decoded_cell, encoded_bit, key_bit, old_position_key,
    total_checkers, Board, PositionKey,
};

verus! {

/// Length of a PositionID string.
pub const POSITION_ID_LEN: usize = 14;

/// The character of 6-bit value `v` in gnubg's base64 alphabet
/// (`A-Z`, `a-z`, `0-9`, `+`, `/`).
pub open spec fn b64_char(v: u8) -> u8 {
    if v < 26 {
        (65 + v) as u8
    } else if v < 52 {
        (97 + v - 26) as u8
    } else if v < 62 {
        (48 + v - 52) as u8
    } else if v == 62 {
        43u8
    } else {
        47u8
    }
}

/// The 6-bit value of a base64 character, if it is one.
pub open spec fn b64_value(ch: u8) -> Option<u8> {
    if 65 <= ch <= 90 {
        Some((ch - 65) as u8)
    } else if 97 <= ch <= 122 {
        Some((ch - 97 + 26) as u8)
    } else if 48 <= ch <= 57 {
        Some((ch - 48 + 52) as u8)
    } else if ch == 43 {
        Some(62u8)
    } else if ch == 47 {
        Some(63u8)
    } else {
        None
    }
}

/// Decode a single base64 character.
pub fn base64_decode(ch: u8) -> (v: Option<u8>)
    ensures
        v == b64_value(ch),
{
    if 65 <= ch && ch <= 90 {
        Some(ch - 65)
    } else if 97 <= ch && ch <= 122 {
        Some(ch - 97 + 26)
    } else if 48 <= ch && ch <= 57 {
        Some(ch - 48 + 52)
    } else if ch == 43 {
        Some(62)
    } else if ch == 47 {
        Some(63)
    } else {
        None
    }
}

/// Encode the low 6 bits of `val` as a base64 character.
pub fn base64_encode(val: u8) -> (ch: u8)
    ensures
        ch == b64_char(val & 0x3f),
{
    let v = val & 0x3f;
    proof {
        lemma_low6(val);
    }
    if v < 26 {
        65 + v
    } else if v < 52 {
        97 + v - 26
    } else if v < 62 {
        48 + v - 52
    } else if v == 62 {
        43
    } else {
        47
    }
}

/// The 6-bit group behind character `i` of the PositionID of key `k`:
/// three bytes make four characters, and the last byte makes two.
pub open spec fn id_sextet(k: Seq<u8>, i: int) -> u8 {
    if i == 12 {
        k[9] >> 2u8
    } else if i == 13 {
        (k[9] & 3u8) << 4u8
    } else {
        let c = (i / 4) * 3;
        let m = i % 4;
        if m == 0 {
            k[c] >> 2u8
        } else if m == 1 {
            ((k[c] & 3u8) << 4u8) | (k[c + 1] >> 4u8)
        } else if m == 2 {
            ((k[c + 1] & 15u8) << 2u8) | (k[c + 2] >> 6u8)
        } else {
            k[c + 2] & 63u8
        }
    }
}

/// The bytes of the PositionID of key `k`.
pub open spec fn id_bytes(k: Seq<u8>) -> Seq<u8> {
    Seq::new(14, |i: int| b64_char(id_sextet(k, i) & 0x3fu8))
}

/// The key that a valid PositionID decodes to.
pub open spec fn decoded_id_key(bytes: Seq<u8>) -> Seq<u8> {
    Seq::new(10, |i: int| decoded_id_byte(bytes, i))
}

/// True when `bytes` is a well-formed PositionID: 14 base64 characters.
pub open spec fn valid_id(bytes: Seq<u8>) -> bool {
    bytes.len() == 14 && forall|i: int| 0 <= i < 14 ==> b64_value(#[trigger] bytes[i]) is Some
}

/// The 6-bit value of character `i` of a valid PositionID.
pub open spec fn id_value(bytes: Seq<u8>, i: int) -> u8 {
    b64_value(bytes[i]).unwrap()
}

/// Byte `i` of the key that a valid PositionID decodes to.
pub open spec fn decoded_id_byte(bytes: Seq<u8>, i: int) -> u8 {
    if i == 9 {
        (id_value(bytes, 12) << 2u8) | (id_value(bytes, 13) >> 4u8)
    } else {
        let s = (i / 3) * 4;
        let m = i % 3;
        if m == 0 {
            (id_value(bytes, s) << 2u8) | (id_value(bytes, s + 1) >> 4u8)
        } else if m == 1 {
            (id_value(bytes, s + 1) << 4u8) | (id_value(bytes, s + 2) >> 2u8)
        } else {
            (id_value(bytes, s + 2) << 6u8) | id_value(bytes, s + 3)
        }
    }
}

proof fn lemma_low6(v: u8)
    by (bit_vector)
    ensures
        v & 0x3fu8 < 64,
{
}

pub(crate) proof fn lemma_regroup(a: u8, b: u8, c: u8)
    by (bit_vector)
    ensures
        ((a >> 2u8) << 2u8) | ((((a & 3u8) << 4u8) | (b >> 4u8)) >> 4u8) == a,
        ((((a & 3u8) << 4u8) | (b >> 4u8)) << 4u8) | ((((b & 15u8) << 2u8) | (c >> 6u8)) >> 2u8)
            == b,
        ((((b & 15u8) << 2u8) | (c >> 6u8)) << 6u8) | (c & 63u8) == c,
        ((a >> 2u8) << 2u8) | (((a & 3u8) << 4u8) >> 4u8) == a,
        (a >> 2u8) & 0x3fu8 == a >> 2u8,
        (((a & 3u8) << 4u8) | (b >> 4u8)) & 0x3fu8 == ((a & 3u8) << 4u8) | (b >> 4u8),
        (((b & 15u8) << 2u8) | (c >> 6u8)) & 0x3fu8 == ((b & 15u8) << 2u8) | (c >> 6u8),
        (c & 63u8) & 0x3fu8 == c & 63u8,
        ((a & 3u8) << 4u8) & 0x3fu8 == (a & 3u8) << 4u8,
        (a >> 2u8) < 64,
        (((a & 3u8) << 4u8) | (b >> 4u8)) < 64,
        (((b & 15u8) << 2u8) | (c >> 6u8)) < 64,
        (c & 63u8) < 64,
        ((a & 3u8) << 4u8) < 64,
{
}

/// Decoding the PositionID of a key gives the key back; every PositionID
/// made from a key is well formed and ASCII.
pub proof fn lemma_position_id_roundtrip(k: Seq<u8>)
    requires
        k.len() == 10,
    ensures
        valid_id(id_bytes(k)),
        all_ascii(id_bytes(k)),
        decoded_id_key(id_bytes(k)) == k,
{
    let bytes = id_bytes(k);
    assert forall|i: int| 0 <= i < 14 implies b64_value(#[trigger] bytes[i]) == Some(
        id_sextet(k, i),
    ) && bytes[i] < 128 by {
        if i < 12 {
            let c = (i / 4) * 3;
            lemma_regroup(k[c], k[c + 1], k[c + 2]);
        } else {
            lemma_regroup(k[9], k[9], k[9]);
        }
    }
    assert forall|i: int| 0 <= i < 10 implies decoded_id_byte(bytes, i) == k[i] by {
        if i < 9 {
            let c = (i / 3) * 3;
            lemma_regroup(k[c], k[c + 1], k[c + 2]);
        } else {
            lemma_regroup(k[9], k[9], k[9]);
        }
    }
    assert(decoded_id_key(bytes) =~= k);
}

/// Encode a position key as a 14-character PositionID.
pub fn position_id_from_old_key(key: &PositionKey) -> (id: String)
    ensures
        id@ == ascii_chars(id_bytes(key.0@)),
{
    let bytes = &key.0;
    let mut out: Vec<u8> = Vec::new();
    let mut i: usize = 0;
    while i < 3
        invariant
            i <= 3,
            *bytes == key.0,
            out@.len() == 4 * i,
            forall|j: int| 0 <= j < out@.len() ==> out@[j] == id_bytes(key.0@)[j],
        decreases 3 - i,
    {
        let chunk = i * 3;
        let ghost n = out@.len() as int;
        out.push(base64_encode(bytes[chunk] >> 2));
        out.push(base64_encode(((bytes[chunk] & 0x03) << 4) | (bytes[chunk + 1] >> 4)));
        out.push(base64_encode(((bytes[chunk + 1] & 0x0f) << 2) | (bytes[chunk + 2] >> 6)));
        out.push(base64_encode(bytes[chunk + 2] & 0x3f));
        proof {
            assert((n + 0) / 4 == i && (n + 0) % 4 == 0);
            assert((n + 1) / 4 == i && (n + 1) % 4 == 1);
            assert((n + 2) / 4 == i && (n + 2) % 4 == 2);
            assert((n + 3) / 4 == i && (n + 3) % 4 == 3);
        }
        i = i + 1;
    }
    out.push(base64_encode(bytes[9] >> 2));
    out.push(base64_encode((bytes[9] & 0x03) << 4));
    proof {
        assert(out@ =~= id_bytes(key.0@));
        lemma_position_id_roundtrip(key.0@);
    }
    ascii_to_string(out)
}

/// Decode a 14-character PositionID into a position key; `None` unless the
/// text is exactly 14 base64 characters.
pub fn old_key_from_position_id(s: &str) -> (res: Option<PositionKey>)
    ensures
        res is Some <==> valid_id(s.spec_bytes()),
        res matches Some(k) ==> k.0@ == decoded_id_key(s.spec_bytes()),
{
    let bytes = s.as_bytes();
    if bytes.len() != POSITION_ID_LEN {
        return None;
    }
    let mut vals = [0u8; 14];
    let mut i: usize = 0;
    while i < 14
        invariant
            i <= 14,
            bytes@ == s.spec_bytes(),
            bytes@.len() == 14,
            forall|j: int| 0 <= j < i ==> b64_value(#[trigger] bytes@[j]) == Some(vals[j]),
        decreases 14 - i,
    {
        match base64_decode(bytes[i]) {
            Some(v) => {
                vals[i] = v;
            },
            None => {
                return None;
            },
        }
        i = i + 1;
    }
    let mut decoded = [0u8; 10];
    let mut g: usize = 0;
    while g < 3
        invariant
            g <= 3,
            bytes@ == s.spec_bytes(),
            valid_id(bytes@),
            forall|j: int| 0 <= j < 14 ==> vals[j] == id_value(bytes@, j),
            forall|j: int| 0 <= j < 3 * g ==> decoded[j] == decoded_id_byte(bytes@, j),
        decreases 3 - g,
    {
        let src = g * 4;
        decoded[g * 3] = (vals[src] << 2) | (vals[src + 1] >> 4);
        decoded[g * 3 + 1] = (vals[src + 1] << 4) | (vals[src + 2] >> 2);
        decoded[g * 3 + 2] = (vals[src + 2] << 6) | vals[src + 3];
        proof {
            let n = 3 * g as int;
            assert((n + 1) / 3 == g && (n + 1) % 3 == 1);
            assert((n + 2) / 3 == g && (n + 2) % 3 == 2);
        }
        g = g + 1;
    }
    decoded[9] = (vals[12] << 2) | (vals[13] >> 4);
    proof {
        assert(decoded@ =~= decoded_id_key(bytes@));
    }
    Some(PositionKey(decoded))
}

/// Encode a board to its PositionID.
pub fn position_id_from_board(board: &Board) -> (id: String)
    requires
        total_checkers(*board) + 50 <= u32::MAX,
    ensures
        exists|k: Seq<u8>|
            #![trigger id_bytes(k)]
            k.len() == 10 && id@ == ascii_chars(id_bytes(k)) && (forall|j: int|
                0 <= j < 80 ==> key_bit(k, j) == encoded_bit(*board, j)),
{
    let key = old_position_key(board);
    let id = position_id_from_old_key(&key);
    proof {
        assert(id@ == ascii_chars(id_bytes(key.0@)));
    }
    id
}

/// Decode a PositionID into a board; `None` unless the text is a
/// well-formed PositionID.
pub fn board_from_position_id(s: &str) -> (res: Option<Board>)
    ensures
        res is Some <==> valid_id(s.spec_bytes()),
        res matches Some(b) ==> forall|f: int|
            0 <= f < 50 ==> cell(b, f) as nat == decoded_cell(decoded_id_key(s.spec_bytes()), f),
{
    match old_key_from_position_id(s) {
        Some(key) => Some(board_from_old_key(&key)),
        None => None,
    }
}

} // verus!

verus! {

/// Reading a board's PositionID gives the board back, provided its key
/// encoding fits (at most 30 checkers in all).
pub proof fn lemma_board_position_id_roundtrip(b: Board, k: Seq<u8>)
    requires
        total_checkers(b) <= 30,
        k.len() == 10,
        forall|j: int| 0 <= j < 80 ==> key_bit(k, j) == encoded_bit(b, j),
    ensures
        valid_id(id_bytes(k)),
        forall|f: int| 0 <= f < 50 ==> decoded_cell(decoded_id_key(id_bytes(k)), f) == cell(b, f) as nat,
{
    lemma_position_id_roundtrip(k);
    crate::types::lemma_old_key_roundtrip(b, k);
}

// ---------------------------------------------------------------------------
// PositionID or hexadecimal key input
// ---------------------------------------------------------------------------

/// Number of bytes in a position key.
pub const POSITION_KEY_BYTES: usize = 10;

/// Errors when reading a position.
#[derive(Clone, Copy, Debug, PartialEq, Eq, Structural)]
pub enum GnuBgError {
    InvalidPositionId,
    InteriorNul,
    EvaluationFailed,
    NeuralNetFailed,
}

impl GnuBgError {
    /// The text of the error's message.
    pub open spec fn message_spec(self) -> Seq<char> {
        match self {
            GnuBgError::InvalidPositionId => "invalid GNU Backgammon PositionID"@,
            GnuBgError::InteriorNul => "position id contains an interior NUL byte"@,
            GnuBgError::EvaluationFailed => "evaluation is provided by gnubg-eval"@,
            GnuBgError::NeuralNetFailed => "neural net evaluation is provided by gnubg-eval"@,
        }
    }

    /// The message describing the error.
    pub fn message(&self) -> (s: &'static str)
        ensures
            s@ == self.message_spec(),
    {
        match self {
            GnuBgError::InvalidPositionId => "invalid GNU Backgammon PositionID",
            GnuBgError::InteriorNul => "position id contains an interior NUL byte",
            GnuBgError::EvaluationFailed => "evaluation is provided by gnubg-eval",
            GnuBgError::NeuralNetFailed => "neural net evaluation is provided by gnubg-eval",
        }
    }
}

/// The value of a hexadecimal digit, if it is one.
pub open spec fn hex_digit(ch: u8) -> Option<u8> {
    if 48 <= ch <= 57 {
        Some((ch - 48) as u8)
    } else if 97 <= ch <= 102 {
        Some((ch - 97 + 10) as u8)
    } else if 65 <= ch <= 70 {
        Some((ch - 65 + 10) as u8)
    } else {
        None
    }
}

/// True when `bytes` is 20 hexadecimal digits.
pub open spec fn valid_hex_key(bytes: Seq<u8>) -> bool {
    bytes.len() == 20 && forall|i: int| 0 <= i < 20 ==> hex_digit(#[trigger] bytes[i]) is Some
}

/// Byte `i` of the key written as 20 hexadecimal digits (high digit first).
pub open spec fn hex_key_byte(bytes: Seq<u8>, i: int) -> u8 {
    (hex_digit(bytes[2 * i]).unwrap() * 16 + hex_digit(bytes[2 * i + 1]).unwrap()) as u8
}

fn hex_value(ch: u8) -> (v: Option<u8>)
    ensures
        v == hex_digit(ch),
{
    if 48 <= ch && ch <= 57 {
        Some(ch - 48)
    } else if 97 <= ch && ch <= 102 {
        Some(ch - 97 + 10)
    } else if 65 <= ch && ch <= 70 {
        Some(ch - 65 + 10)
    } else {
        None
    }
}

fn decode_hex_key(bytes: &[u8]) -> (r: Result<[u8; 10], GnuBgError>)
    requires
        bytes@.len() == 20,
    ensures
        r is Ok <==> valid_hex_key(bytes@),
        r matches Ok(k) ==> forall|i: int| 0 <= i < 10 ==> k[i] == hex_key_byte(bytes@, i),
        r matches Err(e) ==> e == GnuBgError::InvalidPositionId,
{
    let mut key = [0u8; 10];
    let mut i: usize = 0;
    while i < POSITION_KEY_BYTES
        invariant
            i <= 10,
            bytes@.len() == 20,
            forall|j: int| 0 <= j < 2 * i ==> hex_digit(#[trigger] bytes@[j]) is Some,
            forall|j: int| 0 <= j < i ==> key[j] == hex_key_byte(bytes@, j),
        decreases 10 - i,
    {
        let hi = match hex_value(bytes[i * 2]) {
            Some(v) => v,
            None => {
                return Err(GnuBgError::InvalidPositionId);
            },
        };
        let lo = match hex_value(bytes[i * 2 + 1]) {
            Some(v) => v,
            None => {
                return Err(GnuBgError::InvalidPositionId);
            },
        };
        proof {
            assert(hi < 16 && lo < 16);
            assert((hi << 4u8) | lo == hi * 16 + lo) by (bit_vector)
                requires
                    hi < 16,
                    lo < 16,
            ;
        }
        key[i] = (hi << 4) | lo;
        i = i + 1;
    }
    Ok(key)
}

/// Decode a PositionID, or a position key written as 20 hexadecimal
/// digits, into a position key.
pub fn decode_position_id(position_id: &str) -> (r: Result<PositionKey, GnuBgError>)
    ensures
        r == Err::<PositionKey, GnuBgError>(GnuBgError::InteriorNul) <==> position_id.spec_bytes().contains(0u8),
        r matches Ok(k) ==> if position_id.spec_bytes().len() == 20 {
            valid_hex_key(position_id.spec_bytes()) && forall|i: int|
                0 <= i < 10 ==> k.0[i] == hex_key_byte(position_id.spec_bytes(), i)
        } else {
            valid_id(position_id.spec_bytes()) && k.0@ == decoded_id_key(position_id.spec_bytes())
        },
        r == Err::<PositionKey, GnuBgError>(GnuBgError::InvalidPositionId) <==> (
        !position_id.spec_bytes().contains(0u8) && if position_id.spec_bytes().len() == 20 {
            !valid_hex_key(position_id.spec_bytes())
        } else {
            !valid_id(position_id.spec_bytes())
        }),
        r matches Err(e) ==> e == GnuBgError::InteriorNul || e == GnuBgError::InvalidPositionId,
{
    let bytes = position_id.as_bytes();
    let mut i: usize = 0;
    while i < bytes.len()
        invariant
            i <= bytes@.len(),
            bytes@ == position_id.spec_bytes(),
            forall|j: int| 0 <= j < i ==> bytes@[j] != 0u8,
        decreases bytes@.len() - i,
    {
        if bytes[i] == 0 {
            return Err(GnuBgError::InteriorNul);
        }
        i = i + 1;
    }
    if bytes.len() == POSITION_KEY_BYTES * 2 {
        return match decode_hex_key(bytes) {
            Ok(k) => Ok(PositionKey(k)),
            Err(e) => Err(e),
        };
    }
    match old_key_from_position_id(position_id) {
        Some(key) => Ok(key),
        None => Err(GnuBgError::InvalidPositionId),
    }
}

} // verus!

verus! {

// ---------------------------------------------------------------------------
// XG position strings
// ---------------------------------------------------------------------------

/// Checkers of the player (board[0]) written by an XG character: `A`..`P`
/// stand for 1..16, anything else for none.
pub open spec fn xg_player(ch: u8) -> u32 {
    if 65 <= ch <= 80 {
        (ch - 64) as u32
    } else {
        0
    }
}

/// Checkers of the opponent (board[1]) written by an XG character: `a`..`p`
/// stand for 1..16, anything else for none.
pub open spec fn xg_opponent(ch: u8) -> u32 {
    if 97 <= ch <= 112 {
        (ch - 96) as u32
    } else {
        0
    }
}

/// A character allowed in an XG position: `A`..`P`, `a`..`p` or `-`.
pub open spec fn xg_char(ch: u8) -> bool {
    (65 <= ch <= 80) || (97 <= ch <= 112) || ch == 45
}

/// The board an XG description sets: character 0 is board[0]'s bar,
/// character 25 board[1]'s bar, and character `i` (1..=24) both board[0]
/// point `24 - i` and board[1] point `i - 1`.
pub open spec fn xg_board_ok(bytes: Seq<u8>, b: Board) -> bool {
    &&& b[0][24] == xg_player(bytes[0])
    &&& b[1][24] == xg_opponent(bytes[25])
    &&& forall|i: int|
        1 <= i <= 24 ==> b[0][24 - i] == xg_player(#[trigger] bytes[i]) && b[1][i - 1]
            == xg_opponent(bytes[i])
}

/// Parse an XG-format position (its first 26 characters) into a board;
/// `None` if it is shorter or holds another character.
pub fn board_from_xg(desc: &str) -> (res: Option<Board>)
    ensures
        res is Some <==> (desc.spec_bytes().len() >= 26 && forall|i: int|
            0 <= i < 26 ==> xg_char(#[trigger] desc.spec_bytes()[i])),
        res matches Some(b) ==> xg_board_ok(desc.spec_bytes(), b),
{
    let bytes = desc.as_bytes();
    if bytes.len() < 26 {
        return None;
    }
    let mut board: Board = [[0u32; 25]; 2];
    let mut i: usize = 0;
    while i < 26
        invariant
            i <= 26,
            bytes@ == desc.spec_bytes(),
            bytes@.len() >= 26,
            forall|k: int| 0 <= k < i ==> xg_char(#[trigger] bytes@[k]),
            i > 0 ==> board[0][24] == xg_player(bytes@[0]),
            i > 25 ==> board[1][24] == xg_opponent(bytes@[25]),
            forall|k: int|
                1 <= k < i && k <= 24 ==> board[0][24 - k] == xg_player(#[trigger] bytes@[k])
                    && board[1][k - 1] == xg_opponent(bytes@[k]),
        decreases 26 - i,
    {
        let c = bytes[i];
        let ghost prev = board;
        if 65 <= c && c <= 80 {
            let count = (c - 65 + 1) as u32;
            if i == 0 {
                board[0][24] = count;
            } else if i == 25 {
                board[1][24] = 0;
            } else {
                board[0][24 - i] = count;
                board[1][i - 1] = 0;
            }
        } else if 97 <= c && c <= 112 {
            let count = (c - 97 + 1) as u32;
            if i == 0 {
                board[0][24] = 0;
            } else if i == 25 {
                board[1][24] = count;
            } else {
                board[0][24 - i] = 0;
                board[1][i - 1] = count;
            }
        } else if c == 45 {
            if i == 0 {
                board[0][24] = 0;
            } else if i == 25 {
                board[1][24] = 0;
            } else {
                board[0][24 - i] = 0;
                board[1][i - 1] = 0;
            }
        } else {
            return None;
        }
        proof {
            assert forall|k: int|
                1 <= k < i + 1 && k <= 24 implies board[0][24 - k] == xg_player(
                #[trigger] bytes@[k],
            ) && board[1][k - 1] == xg_opponent(bytes@[k]) by {
                if k < i {
                    assert(prev[0][24 - k] == xg_player(bytes@[k]));
                }
            }
        }
        i = i + 1;
    }
    Some(board)
}

} // verus!

verus! {

/// The base64 alphabet of PositionIDs: value `v` is written as the `v`-th
/// character of `A`-`Z`, `a`-`z`, `0`-`9`, `+`, `/`, and reading a
/// character gives back its place in that alphabet.
pub proof fn lemma_b64_alphabet(v: u8)
    requires
        v < 64,
    ensures
        b64_char(v) as char
            == "ABCDEFGHIJKLMNOPQRSTUVWXYZabcdefghijklmnopqrstuvwxyz0123456789+/"@[v as int],
        b64_value(b64_char(v)) == Some(v),
{
    reveal_strlit("ABCDEFGHIJKLMNOPQRSTUVWXYZabcdefghijklmnopqrstuvwxyz0123456789+/");
}

/// A hexadecimal digit: `0`-`9`, `a`-`f` or `A`-`F`.
pub open spec fn is_hex_char(c: u8) -> bool {
    ('0' as u8 <= c <= '9' as u8) || ('a' as u8 <= c <= 'f' as u8) || ('A' as u8 <= c <= 'F' as u8)
}

/// Hex keys: every text of 20 hexadecimal digits is a valid hex key, and
/// byte `i` of its key is `16 * high + low` for the digits `2 * i` and
/// `2 * i + 1`, where `0`-`9` count 0 to 9 and both `a`-`f` and `A`-`F`
/// count 10 to 15.  Nothing else of length 20 is a valid hex key.
pub proof fn lemma_hex_key_digits(s: Seq<u8>)
    requires
        s.len() == 20,
    ensures
        valid_hex_key(s) <==> (forall|k: int| 0 <= k < 20 ==> is_hex_char(#[trigger] s[k])),
        valid_hex_key(s) ==> forall|i: int|
            0 <= i < 10 ==> {
                let hi = s[2 * i] as int;
                let lo = s[2 * i + 1] as int;
                let hv = if hi <= '9' as int {
                    hi - '0' as int
                } else if hi >= 'a' as int {
                    hi - 'a' as int + 10
                } else {
                    hi - 'A' as int + 10
                };
                let lv = if lo <= '9' as int {
                    lo - '0' as int
                } else if lo >= 'a' as int {
                    lo - 'a' as int + 10
                } else {
                    lo - 'A' as int + 10
                };
                #[trigger] hex_key_byte(s, i) as int == 16 * hv + lv
            },
{
    assert(valid_hex_key(s) <==> (forall|k: int| 0 <= k < 20 ==> is_hex_char(#[trigger] s[k])))
        by {
        if valid_hex_key(s) {
            assert forall|k: int| 0 <= k < 20 implies is_hex_char(#[trigger] s[k]) by {
                assert(hex_digit(s[k]) is Some);
            }
        }
        if forall|k: int| 0 <= k < 20 ==> is_hex_char(#[trigger] s[k]) {
            assert forall|k: int| 0 <= k < 20 implies hex_digit(#[trigger] s[k]) is Some by {
                assert(is_hex_char(s[k]));
            }
        }
    }
    if valid_hex_key(s) {
        assert forall|i: int| 0 <= i < 10 implies {
            let hi = s[2 * i] as int;
            let lo = s[2 * i + 1] as int;
            let hv = if hi <= '9' as int {
                hi - '0' as int
            } else if hi >= 'a' as int {
                hi - 'a' as int + 10
            } else {
                hi - 'A' as int + 10
            };
            let lv = if lo <= '9' as int {
                lo - '0' as int
            } else if lo >= 'a' as int {
                lo - 'a' as int + 10
            } else {
                lo - 'A' as int + 10
            };
            #[trigger] hex_key_byte(s, i) as int == 16 * hv + lv
        } by {
            assert(hex_digit(s[2 * i]) is Some);
            assert(hex_digit(s[2 * i + 1]) is Some);
        }
    }
}

} // verus!
