//! The command line's own logic: reading dice, match scores and cube values,
//! and the random positions and rolls of the benchmark.
use vstd::prelude::*;
use vstd::string::{StringExecFns, StringSliceAdditionalSpecFns};
use vstd::wrapping::u64_specs::wrapping_add;
use crate::text::{all_ascii, ascii_chars, ascii_to_string, chars_to_string, is_ws, str_chars, white, decimal, lemma_ascii_concat, lemma_decimal_is_ascii, push_decimal};
use crate::transposition::spec_splitmix64;
use crate::types::PositionKey;
use crate::search::{key_board, raw_board, Board, Move, SearchError};
use crate::weights::{trim, trimmed};

verus! {

/// An ASCII decimal digit.
pub open spec fn is_digit(b: u8) -> bool {
    48 <= b <= 57
}

/// The value of a run of decimal digits.
pub open spec fn digits_value(s: Seq<u8>) -> nat
    decreases s.len(),
{
    if s.len() == 0 {
        0
    } else {
        digits_value(s.drop_last()) * 10 + (s.last() - 48) as nat
    }
}

/// Every byte is a decimal digit.
pub open spec fn all_digits(s: Seq<u8>) -> bool {
    forall|i: int| 0 <= i < s.len() ==> is_digit(#[trigger] s[i])
}

/// The integer a text spells: an optional `+` or `-`, then one or more
/// decimal digits, nothing else.
pub open spec fn int_text(s: Seq<u8>) -> Option<int> {
    let signed = s.len() > 0 && (s[0] == 43u8 || s[0] == 45u8);
    let body = if signed {
        s.drop_first()
    } else {
        s
    };
    if body.len() > 0 && all_digits(body) {
        if signed && s[0] == 45u8 {
            Some(-digits_value(body))
        } else {
            Some(digits_value(body) as int)
        }
    } else {
        None
    }
}

/// The `i32` a text spells, as `str::parse::<i32>` reads it.
pub open spec fn i32_text(s: Seq<u8>) -> Option<i32> {
    match int_text(s) {
        Some(v) => if i32::MIN <= v <= i32::MAX {
            Some(v as i32)
        } else {
            None
        },
        None => None,
    }
}

const SATURATION: i64 = 4294967296;

proof fn lemma_saturate(v: nat, d: nat)
    requires
        d < 10,
    ensures
        (if 10 * (if v < SATURATION { v } else { SATURATION as nat }) + d < SATURATION {
            10 * (if v < SATURATION { v } else { SATURATION as nat }) + d
        } else {
            SATURATION as nat
        }) == (if 10 * v + d < SATURATION {
            10 * v + d
        } else {
            SATURATION as nat
        }),
{
}

/// Read the `i32` spelled by `bytes[start..end]`.
fn parse_i32(bytes: &[u8], start: usize, end: usize) -> (r: Option<i32>)
    requires
        start <= end <= bytes@.len(),
    ensures
        r == i32_text(bytes@.subrange(start as int, end as int)),
{
    let ghost s = bytes@.subrange(start as int, end as int);
    let mut i = start;
    let mut neg = false;
    if i < end && (bytes[i] == 43 || bytes[i] == 45) {
        neg = bytes[i] == 45;
        i = i + 1;
    }
    let ghost body = bytes@.subrange(i as int, end as int);
    let ghost signed = s.len() > 0 && (s[0] == 43u8 || s[0] == 45u8);
    proof {
        if start < end {
            assert(s[0] == bytes@[start as int]);
        }
        if i > start {
            assert(signed);
            assert(body =~= s.drop_first());
        } else {
            assert(!signed);
            assert(body =~= s);
        }
        assert(body == (if signed { s.drop_first() } else { s }));
        assert(neg == (signed && s[0] == 45u8));
    }
    if i == end {
        return None;
    }
    let body_start = i;
    let mut acc: i64 = 0;
    while i < end
        invariant
            start <= body_start <= i <= end <= bytes@.len(),
            body == bytes@.subrange(body_start as int, end as int),
            s == bytes@.subrange(start as int, end as int),
            signed == (s.len() > 0 && (s[0] == 43u8 || s[0] == 45u8)),
            body == (if signed { s.drop_first() } else { s }),
            neg == (signed && s[0] == 45u8),
            forall|j: int| body_start <= j < i ==> is_digit(#[trigger] bytes@[j]),
            acc == (if digits_value(bytes@.subrange(body_start as int, i as int)) < SATURATION {
                digits_value(bytes@.subrange(body_start as int, i as int)) as int
            } else {
                SATURATION as int
            }),
        decreases end - i,
    {
        let b = bytes[i];
        if b < 48 || b > 57 {
            proof {
                assert(body[i - body_start] == b);
                assert(!is_digit(body[i - body_start]));

            }
            return None;
        }
        let ghost prev = bytes@.subrange(body_start as int, i as int);
        proof {
            let next = bytes@.subrange(body_start as int, i + 1);
            assert(next.drop_last() =~= prev);
            assert(next.last() == b);
            lemma_saturate(digits_value(prev), (b - 48) as nat);
        }
        let grown = acc * 10 + (b - 48) as i64;
        acc = if grown < SATURATION {
            grown
        } else {
            SATURATION
        };
        i = i + 1;
    }
    proof {
        assert(bytes@.subrange(body_start as int, end as int) =~= body);
        assert forall|j: int| 0 <= j < body.len() implies is_digit(#[trigger] body[j]) by {
            assert(body[j] == bytes@[body_start + j]);
        }
        assert(all_digits(body));
    }
    if acc >= SATURATION {
        return None;
    }
    if neg {
        if acc > 2147483648 {
            None
        } else {
            Some((-acc) as i32)
        }
    } else {
        if acc > 2147483647 {
            None
        } else {
            Some(acc as i32)
        }
    }
}

/// The index of the first `:` in `s` at or after `i`.
pub open spec fn colon_from(s: Seq<u8>, i: int) -> Option<int>
    decreases s.len() - i,
{
    if i < 0 || i >= s.len() {
        None
    } else if s[i] == 58u8 {
        Some(i)
    } else {
        colon_from(s, i + 1)
    }
}

/// The two numbers of a `PLAYER_AWAY:OPPONENT_AWAY` text, split at its
/// first `:`, if both read as `i32`.
pub open spec fn score_text(s: Seq<u8>) -> Option<(i32, i32)> {
    match colon_from(s, 0) {
        Some(c) => match (i32_text(s.subrange(0, c)), i32_text(s.subrange(c + 1, s.len() as int))) {
            (Some(p), Some(o)) => Some((p, o)),
            _ => None,
        },
        None => None,
    }
}

/// `text` with `input` quoted after it: `text'input'`.
pub open spec fn quoted(text: Seq<char>, input: Seq<char>) -> Seq<char> {
    text + input + seq!['\'']
}

fn quote(text: &str, input: &str) -> (r: String)
    ensures
        r@ == quoted(text@, input@),
{
    let mut r = String::from_str(text);
    r.append(input);
    r.append("'");
    proof {
        reveal_strlit("'");
        assert(r@ =~= quoted(text@, input@));
    }
    r
}

/// Read a match score written `PLAYER_AWAY:OPPONENT_AWAY`, each between 1
/// and 25.
pub fn parse_match_score(input: &str) -> (r: Result<(i32, i32), String>)
    ensures
        r is Ok <==> (score_text(input.spec_bytes()) matches Some((p, o)) && 1 <= p <= 25 && 1 <= o
            <= 25),
        r matches Ok(v) ==> score_text(input.spec_bytes()) == Some(v),
        r matches Err(e) ==> e@ == if score_text(input.spec_bytes()) is None {
            quoted("match must be PLAYER_AWAY:OPPONENT_AWAY, got '"@, input@)
        } else {
            quoted("match away scores must be in 1..=25, got '"@, input@)
        },
{
    let bytes = input.as_bytes();
    let mut c: usize = 0;
    while c < bytes.len() && bytes[c] != 58
        invariant
            c <= bytes@.len(),
            bytes@ == input.spec_bytes(),
            colon_from(bytes@, 0) == colon_from(bytes@, c as int),
        decreases bytes@.len() - c,
    {
        c = c + 1;
    }
    if c == bytes.len() {
        return Err(quote("match must be PLAYER_AWAY:OPPONENT_AWAY, got '", input));
    }
    let player = parse_i32(bytes, 0, c);
    let opponent = parse_i32(bytes, c + 1, bytes.len());
    match (player, opponent) {
        (Some(p), Some(o)) => {
            if 1 <= p && p <= 25 && 1 <= o && o <= 25 {
                Ok((p, o))
            } else {
                Err(quote("match away scores must be in 1..=25, got '", input))
            }
        },
        _ => Err(quote("match must be PLAYER_AWAY:OPPONENT_AWAY, got '", input)),
    }
}

/// True when `n` is a power of two.
pub open spec fn power_of_two(n: nat) -> bool
    decreases n,
{
    if n <= 1 {
        n == 1
    } else {
        n % 2 == 0 && power_of_two(n / 2)
    }
}

fn is_power_of_two(n: u32) -> (r: bool)
    ensures
        r == power_of_two(n as nat),
{
    let mut v = n;
    while v > 1
        invariant
            power_of_two(v as nat) == power_of_two(n as nat),
        decreases v,
    {
        if v % 2 != 0 {
            return false;
        }
        v = v / 2;
    }
    v == 1
}

/// Read a cube value: a positive power of two.
pub fn parse_cube_value(input: &str) -> (r: Result<i32, String>)
    ensures
        r is Ok <==> (i32_text(input.spec_bytes()) matches Some(v) && v > 0 && power_of_two(
            v as nat,
        )),
        r matches Ok(v) ==> i32_text(input.spec_bytes()) == Some(v),
        r matches Err(e) ==> e@ == quoted("cube must be a positive power of two, got '"@, input@),
{
    let bytes = input.as_bytes();
    proof {
        assert(bytes@.subrange(0, bytes@.len() as int) =~= bytes@);
    }
    match parse_i32(bytes, 0, bytes.len()) {
        Some(value) => {
            if value <= 0 || !is_power_of_two(value as u32) {
                Err(quote("cube must be a positive power of two, got '", input))
            } else {
                Ok(value)
            }
        },
        None => Err(quote("cube must be a positive power of two, got '", input)),
    }
}

/// The values of the decimal digits of `s`, in order; other bytes are
/// skipped.
pub open spec fn digit_values(s: Seq<u8>) -> Seq<u8>
    decreases s.len(),
{
    if s.len() == 0 {
        Seq::empty()
    } else if is_digit(s.last()) {
        digit_values(s.drop_last()).push((s.last() - 48) as u8)
    } else {
        digit_values(s.drop_last())
    }
}

/// Read a roll: the text must hold exactly two digits, each from 1 to 6;
/// anything else in it is skipped.
pub fn parse_dice(input: &str) -> (r: Result<(u8, u8), String>)
    ensures
        ({
            let d = digit_values(input.spec_bytes());
            &&& r is Ok <==> (d.len() == 2 && 1 <= d[0] <= 6 && 1 <= d[1] <= 6)
            &&& r matches Ok(v) ==> v == (d[0], d[1])
        }),
        r matches Err(e) ==> e@ == quoted("dice must contain exactly two dice in 1..=6, got '"@, input@),
{
    let bytes = input.as_bytes();
    let mut digits: Vec<u8> = Vec::new();
    let mut i: usize = 0;
    while i < bytes.len()
        invariant
            i <= bytes@.len(),
            bytes@ == input.spec_bytes(),
            digits@ == digit_values(bytes@.subrange(0, i as int)),
        decreases bytes@.len() - i,
    {
        proof {
            let next = bytes@.subrange(0, i + 1);
            assert(next.drop_last() =~= bytes@.subrange(0, i as int));
        }
        if 48 <= bytes[i] && bytes[i] <= 57 {
            digits.push(bytes[i] - 48);
        }
        i = i + 1;
    }
    proof {
        assert(bytes@.subrange(0, bytes@.len() as int) =~= bytes@);
    }
    if digits.len() != 2 || digits[0] < 1 || digits[0] > 6 || digits[1] < 1 || digits[1] > 6 {
        return Err(quote("dice must contain exactly two dice in 1..=6, got '", input));
    }
    Ok((digits[0], digits[1]))
}

/// A roll written as its two digits, such as `31`.
pub fn format_dice(dice: (u8, u8)) -> (s: String)
    ensures
        s@ == ascii_chars(decimal(dice.0 as nat) + decimal(dice.1 as nat)),
{
    let mut out: Vec<u8> = Vec::new();
    push_decimal(&mut out, dice.0 as u64);
    push_decimal(&mut out, dice.1 as u64);
    proof {
        assert(out@ =~= decimal(dice.0 as nat) + decimal(dice.1 as nat));
        lemma_decimal_is_ascii(dice.0 as nat);
        lemma_decimal_is_ascii(dice.1 as nat);
        lemma_ascii_concat(decimal(dice.0 as nat), decimal(dice.1 as nat));
    }
    ascii_to_string(out)
}

/// A roll written by `format_dice` reads back with `parse_dice`: the bytes
/// of the written text hold exactly the two dice, in order.
pub proof fn lemma_dice_text_roundtrip(d0: u8, d1: u8)
    requires
        1 <= d0 <= 6,
        1 <= d1 <= 6,
    ensures
        ({
            let d = digit_values(
                vstd::utf8::encode_utf8(ascii_chars(decimal(d0 as nat) + decimal(d1 as nat))),
            );
            d.len() == 2 && d[0] == d0 && d[1] == d1
        }),
{
    let bytes = decimal(d0 as nat) + decimal(d1 as nat);
    assert(bytes =~= seq![(48 + d0) as u8, (48 + d1) as u8]);
    let chars = ascii_chars(bytes);
    assert(vstd::utf8::is_ascii_chars(chars));
    vstd::utf8::is_ascii_chars_encode_utf8(chars);
    let e = vstd::utf8::encode_utf8(chars);
    assert(e =~= bytes) by {
        assert forall|i: int| 0 <= i < e.len() implies e[i] == bytes[i] by {
            assert(chars[i] as u8 == e[i]);
        }
    }
    assert(e.drop_last() =~= seq![(48 + d0) as u8]);
    assert(e.drop_last().drop_last() =~= Seq::<u8>::empty());
    assert(is_digit(e.last()) && is_digit(e.drop_last().last()));
    reveal_with_fuel(digit_values, 3);
}

/// One cell of the text board: the symbol while the stack is taller than
/// the row, a dot otherwise; each cell is three characters wide.
pub fn checker_cell(count: u32, symbol: char, row: u32) -> (s: String)
    ensures
        s@ == if count > row {
            seq![symbol, ' ', ' ']
        } else {
            seq!['.', ' ', ' ']
        },
{
    if count > row {
        chars_to_string(vec![symbol, ' ', ' '])
    } else {
        chars_to_string(vec!['.', ' ', ' '])
    }
}

/// The SplitMix64 pseudo-random generator of the benchmark.
pub struct SplitMix64 {
    pub state: u64,
}

/// The byte `i` (least significant first) of `x`.
pub open spec fn le_byte(x: u64, i: int) -> u8 {
    ((x >> ((8 * i) as u64)) & 0xffu64) as u8
}

impl SplitMix64 {
    /// A generator starting from `seed`.
    pub fn new(seed: u64) -> (g: Self)
        ensures
            g.state == seed,
    {
        SplitMix64 { state: seed }
    }

    /// The next output: the state advances by the golden-ratio constant and
    /// the output is the SplitMix64 mix of the old state.
    pub fn next(&mut self) -> (r: u64)
        ensures
            final(self).state == wrapping_add(old(self).state, 0x9e37_79b9_7f4a_7c15u64),
            r == spec_splitmix64(old(self).state),
    {
        self.state = self.state.wrapping_add(0x9e37_79b9_7f4a_7c15);
        let mut z = self.state;
        z = (z ^ (z >> 30)).wrapping_mul(0xbf58_476d_1ce4_e5b9);
        z = (z ^ (z >> 27)).wrapping_mul(0x94d0_49bb_1331_11eb);
        z ^ (z >> 31)
    }

    /// A random position key: the little-endian bytes of two outputs, the
    /// second cut to two bytes.
    pub fn position_key(&mut self) -> (k: PositionKey)
        ensures
            ({
                let a = spec_splitmix64(old(self).state);
                let s1 = wrapping_add(old(self).state, 0x9e37_79b9_7f4a_7c15u64);
                let b = spec_splitmix64(s1);
                &&& final(self).state == wrapping_add(s1, 0x9e37_79b9_7f4a_7c15u64)
                &&& forall|i: int| 0 <= i < 8 ==> k.0[i] == le_byte(a, i)
                &&& forall|i: int| 8 <= i < 10 ==> k.0[i] == le_byte(b, i - 8)
            }),
    {
        let mut key = [0u8; 10];
        let a = self.next();
        let mut i: usize = 0;
        while i < 8
            invariant
                i <= 8,
                forall|j: int| 0 <= j < i ==> key[j] == le_byte(a, j),
            decreases 8 - i,
        {
            key[i] = ((a >> (8 * i as u64)) & 0xff) as u8;
            i = i + 1;
        }
        let b = self.next();
        key[8] = (b & 0xff) as u8;
        key[9] = ((b >> 8) & 0xff) as u8;
        proof {
            assert(b >> 0u64 == b) by (bit_vector);
        }
        PositionKey(key)
    }

    /// A random roll: the output modulo 6, and the output divided by 6
    /// modulo 6, each plus one.
    pub fn dice(&mut self) -> (d: (u8, u8))
        ensures
            ({
                let v = spec_splitmix64(old(self).state);
                &&& final(self).state == wrapping_add(old(self).state, 0x9e37_79b9_7f4a_7c15u64)
                &&& d == ((v % 6 + 1) as u8, ((v / 6) % 6 + 1) as u8)
            }),
    {
        let value = self.next();
        (((value % 6) + 1) as u8, (((value / 6) % 6) + 1) as u8)
    }
}

/// The text of one sub-move: `from/to`, or `from/off` when it bears off.
pub open spec fn step_text(from: u8, to: u8) -> Seq<u8> {
    decimal(from as nat) + seq![47u8] + if to == 0 {
        seq![111u8, 102u8, 102u8]
    } else {
        decimal(to as nat)
    }
}

/// The texts of the recorded sub-moves among the first `n`, joined by
/// spaces.
pub open spec fn steps_text(steps: Seq<Option<(u8, u8)>>, n: int) -> Seq<u8>
    decreases n,
{
    if n <= 0 {
        Seq::empty()
    } else {
        let rest = steps_text(steps, n - 1);
        match steps[n - 1] {
            Some((f, t)) => if rest.len() == 0 {
                step_text(f, t)
            } else {
                rest + seq![32u8] + step_text(f, t)
            },
            None => rest,
        }
    }
}

/// The compact text of a move: its sub-moves, or `from/to` when it has
/// none.
pub open spec fn compact_text(mv: Move) -> Seq<u8> {
    let t = steps_text(mv.steps@, 4);
    if t.len() == 0 {
        decimal(mv.from as nat) + seq![47u8] + decimal(mv.to as nat)
    } else {
        t
    }
}

/// The full text of a move: `#id dice sub-moves`.
pub open spec fn move_text(mv: Move) -> Seq<u8> {
    seq![35u8] + decimal(mv.id as nat) + seq![32u8] + decimal(mv.dice.0 as nat) + decimal(
        mv.dice.1 as nat,
    ) + seq![32u8] + compact_text(mv)
}

proof fn lemma_step_text_ascii(from: u8, to: u8)
    ensures
        all_ascii(step_text(from, to)),
        step_text(from, to).len() > 0,
{
    lemma_decimal_is_ascii(from as nat);
    lemma_decimal_is_ascii(to as nat);
}

pub(crate) proof fn lemma_step_text_nonempty(from: u8, to: u8)
    ensures
        step_text(from, to).len() > 0,
{
}

pub(crate) proof fn lemma_candidate_ascii(mv: Move)
    ensures
        all_ascii(crate::search::candidate_text(mv)),
{
    lemma_steps_text_ascii(mv.steps@, 4);
    lemma_decimal_is_ascii(mv.id as nat);
    lemma_decimal_is_ascii(mv.dice.0 as nat);
    lemma_decimal_is_ascii(mv.dice.1 as nat);
}

proof fn lemma_steps_text_ascii(steps: Seq<Option<(u8, u8)>>, n: int)
    ensures
        all_ascii(steps_text(steps, n)),
    decreases n,
{
    if n > 0 {
        lemma_steps_text_ascii(steps, n - 1);
        if let Some((f, t)) = steps[n - 1] {
            lemma_step_text_ascii(f, t);
        }
    }
}

proof fn lemma_compact_ascii(mv: Move)
    ensures
        all_ascii(compact_text(mv)),
        all_ascii(move_text(mv)),
{
    lemma_steps_text_ascii(mv.steps@, 4);
    lemma_decimal_is_ascii(mv.from as nat);
    lemma_decimal_is_ascii(mv.to as nat);
    lemma_decimal_is_ascii(mv.id as nat);
    lemma_decimal_is_ascii(mv.dice.0 as nat);
    lemma_decimal_is_ascii(mv.dice.1 as nat);
}

pub(crate) fn push_step(out: &mut Vec<u8>, from: u8, to: u8)
    ensures
        final(out)@ == old(out)@ + step_text(from, to),
{
    push_decimal(out, from as u64);
    out.push(47);
    if to == 0 {
        out.push(111);
        out.push(102);
        out.push(102);
    } else {
        push_decimal(out, to as u64);
    }
    proof {
        assert(final(out)@ =~= old(out)@ + step_text(from, to));
    }
}

fn push_compact(out: &mut Vec<u8>, mv: &Move)
    ensures
        final(out)@ == old(out)@ + compact_text(*mv),
{
    let ghost start = out@;
    let mut part: Vec<u8> = Vec::new();
    let mut i: usize = 0;
    while i < 4
        invariant
            i <= 4,
            part@ == steps_text(mv.steps@, i as int),
        decreases 4 - i,
    {
        if let Some((f, t)) = mv.steps[i] {
            if part.len() > 0 {
                part.push(32);
            }
            proof {
                lemma_step_text_ascii(f, t);
            }
            push_step(&mut part, f, t);
        }
        i = i + 1;
    }
    if part.len() == 0 {
        push_decimal(out, mv.from as u64);
        out.push(47);
        push_decimal(out, mv.to as u64);
        proof {
            assert(out@ =~= start + compact_text(*mv));
        }
    } else {
        let mut j: usize = 0;
        while j < part.len()
            invariant
                j <= part@.len(),
                out@ == start + part@.subrange(0, j as int),
            decreases part@.len() - j,
        {
            out.push(part[j]);
            proof {
                assert(part@.subrange(0, j + 1) =~= part@.subrange(0, j as int).push(part@[j as int]));
            }
            j = j + 1;
        }
        proof {
            assert(part@.subrange(0, part@.len() as int) =~= part@);
        }
    }
}

/// The compact text of a move, such as `8/5 6/5` or `24/off`.
pub fn format_move_compact(mv: &Move) -> (s: String)
    ensures
        s@ == ascii_chars(compact_text(*mv)),
{
    let mut out: Vec<u8> = Vec::new();
    push_compact(&mut out, mv);
    proof {
        assert(out@ =~= compact_text(*mv));
        lemma_compact_ascii(*mv);
    }
    ascii_to_string(out)
}

/// The full text of a move, such as `#3 31 8/5 6/5`.
pub fn format_move(mv: &Move) -> (s: String)
    ensures
        s@ == ascii_chars(move_text(*mv)),
{
    let mut out: Vec<u8> = Vec::new();
    out.push(35);
    push_decimal(&mut out, mv.id as u64);
    out.push(32);
    push_decimal(&mut out, mv.dice.0 as u64);
    push_decimal(&mut out, mv.dice.1 as u64);
    out.push(32);
    push_compact(&mut out, mv);
    proof {
        assert(out@ =~= move_text(*mv));
        lemma_compact_ascii(*mv);
    }
    ascii_to_string(out)
}

/// The compact texts of the first `n` moves of a line, joined by spaces.
pub open spec fn pv_text(pv: Seq<Move>, n: int) -> Seq<u8>
    decreases n,
{
    if n <= 0 {
        Seq::empty()
    } else if n == 1 {
        compact_text(pv[0])
    } else {
        pv_text(pv, n - 1) + seq![32u8] + compact_text(pv[n - 1])
    }
}

proof fn lemma_pv_ascii(pv: Seq<Move>, n: int)
    ensures
        all_ascii(pv_text(pv, n)),
    decreases n,
{
    if n > 0 {
        lemma_compact_ascii(pv[n - 1]);
        if n > 1 {
            lemma_pv_ascii(pv, n - 1);
        }
    }
}

/// A principal variation: the compact texts of its moves, joined by spaces.
pub fn format_pv(pv: &[Move]) -> (s: String)
    ensures
        s@ == ascii_chars(pv_text(pv@, pv@.len() as int)),
{
    let mut out: Vec<u8> = Vec::new();
    let mut i: usize = 0;
    while i < pv.len()
        invariant
            i <= pv@.len(),
            out@ == pv_text(pv@, i as int),
        decreases pv@.len() - i,
    {
        if i > 0 {
            out.push(32);
        }
        push_compact(&mut out, &pv[i]);
        i = i + 1;
    }
    proof {
        lemma_pv_ascii(pv@, pv@.len() as int);
    }
    ascii_to_string(out)
}

/// The text with every `->` (read left to right) turned into `/`.
pub open spec fn replace_arrow(s: Seq<char>) -> Seq<char>
    decreases s.len(),
{
    if s.len() == 0 {
        s
    } else if s.len() >= 2 && s[0] == '-' && s[1] == '>' {
        seq!['/'] + replace_arrow(s.skip(2))
    } else {
        seq![s[0]] + replace_arrow(s.skip(1))
    }
}

/// The words of the text joined by single spaces, white space dropped at
/// both ends; `pending` says a space is owed before the next word, and
/// `started` that a word has been written.
pub open spec fn squash(s: Seq<char>, pending: bool, started: bool) -> Seq<char>
    decreases s.len(),
{
    if s.len() == 0 {
        Seq::empty()
    } else if is_ws(s[0]) {
        squash(s.skip(1), started, started)
    } else {
        (if pending {
            seq![' ']
        } else {
            Seq::empty()
        }) + seq![s[0]] + squash(s.skip(1), false, true)
    }
}

/// ASCII upper-case letters made lower case.
pub open spec fn ascii_lower(c: char) -> char {
    if 'A' <= c && c <= 'Z' {
        ((c as u32) + 32) as char
    } else {
        c
    }
}

/// A move as typed, normalised for comparison: `->` read as `/`, words
/// joined by single spaces, ASCII letters in lower case.
pub open spec fn normalized(s: Seq<char>) -> Seq<char> {
    squash(replace_arrow(s), false, false).map_values(|c: char| ascii_lower(c))
}

/// Normalise a typed move for comparison.
pub fn normalize_move_text(input: &str) -> (s: String)
    ensures
        s@ == normalized(input@),
{
    let chars = str_chars(input);
    let n = chars.len();
    let mut a: Vec<char> = Vec::new();
    let mut i: usize = 0;
    proof {
        assert(chars@.skip(0) =~= chars@);
        assert(a@ + replace_arrow(chars@) =~= replace_arrow(chars@));
    }
    while i < n
        invariant
            n == chars@.len(),
            i <= n,
            a@ + replace_arrow(chars@.skip(i as int)) == replace_arrow(chars@),
        decreases n - i,
    {
        let ghost rest = chars@.skip(i as int);
        if i + 1 < n && chars[i] == '-' && chars[i + 1] == '>' {
            proof {
                assert(rest.skip(2) =~= chars@.skip(i + 2));
                assert(rest[0] == '-' && rest[1] == '>');
                assert(a@.push('/') + replace_arrow(chars@.skip(i + 2)) =~= a@ + replace_arrow(rest));
            }
            a.push('/');
            i = i + 2;
        } else {
            proof {
                assert(rest.skip(1) =~= chars@.skip(i + 1));
                assert(rest[0] == chars@[i as int]);
                assert(a@.push(chars@[i as int]) + replace_arrow(chars@.skip(i + 1)) =~= a@ + replace_arrow(
                    rest,
                ));
            }
            a.push(chars[i]);
            i = i + 1;
        }
    }
    proof {
        assert(chars@.skip(n as int) =~= Seq::<char>::empty());
        assert(a@ =~= replace_arrow(chars@));
    }
    let m = a.len();
    let mut b: Vec<char> = Vec::new();
    let mut pending = false;
    let mut started = false;
    let mut j: usize = 0;
    proof {
        assert(a@.skip(0) =~= a@);
    }
    while j < m
        invariant
            m == a@.len(),
            j <= m,
            b@ + squash(a@.skip(j as int), pending, started) == squash(a@, false, false),
        decreases m - j,
    {
        let ghost rest = a@.skip(j as int);
        let c = a[j];
        proof {
            assert(rest.skip(1) =~= a@.skip(j + 1));
            assert(rest[0] == c);
        }
        if white(c) {
            pending = started;
        } else {
            proof {
                let pre = if pending {
                    seq![' ']
                } else {
                    Seq::<char>::empty()
                };
                assert(b@ + squash(rest, pending, started) =~= (b@ + pre).push(c) + squash(
                    a@.skip(j + 1),
                    false,
                    true,
                ));
            }
            if pending {
                b.push(' ');
            }
            b.push(c);
            pending = false;
            started = true;
        }
        j = j + 1;
    }
    proof {
        assert(a@.skip(m as int) =~= Seq::<char>::empty());
        assert(b@ =~= squash(a@, false, false));
    }
    let mut out: Vec<char> = Vec::new();
    let mut k: usize = 0;
    while k < b.len()
        invariant
            k <= b@.len(),
            out@ == b@.subrange(0, k as int).map_values(|c: char| ascii_lower(c)),
        decreases b@.len() - k,
    {
        let c = b[k];
        let l = if 'A' <= c && c <= 'Z' {
            ((c as u8) + 32) as char
        } else {
            c
        };
        out.push(l);
        proof {
            assert(b@.subrange(0, k + 1).map_values(|c: char| ascii_lower(c)) =~= b@.subrange(
                0,
                k as int,
            ).map_values(|c: char| ascii_lower(c)).push(ascii_lower(c)));
        }
        k = k + 1;
    }
    proof {
        assert(b@.subrange(0, b@.len() as int) =~= b@);
    }
    chars_to_string(out)
}

/// The roll a browser sends: after trimming, exactly two characters, each
/// a digit from 1 to 6.
pub open spec fn roll_chars_ok(t: Seq<char>) -> bool {
    t.len() == 2 && '1' <= t[0] && t[0] <= '6' && '1' <= t[1] && t[1] <= '6'
}

/// Read a roll sent by the browser; anything but two dice is refused with
/// the empty-move-list error, which the browser interface reuses for bad
/// input.
pub fn parse_roll(s: &str) -> (r: Result<(u8, u8), SearchError>)
    ensures
        r is Ok <==> roll_chars_ok(trim(s@)),
        r matches Ok(d) ==> d == (((trim(s@)[0] as u32) - 48) as u8, ((trim(s@)[1] as u32) - 48) as u8),
        r matches Err(e) ==> e == SearchError::EmptyMoveList,
{
    let chars = str_chars(s);
    let t = trimmed(&chars, 0, chars.len());
    proof {
        assert(chars@.subrange(0, chars@.len() as int) =~= s@);
    }
    if t.len() != 2 {
        return Err(SearchError::EmptyMoveList);
    }
    let a = t[0];
    let b = t[1];
    if a < '1' || a > '6' || b < '1' || b > '6' {
        return Err(SearchError::EmptyMoveList);
    }
    Ok(((a as u32 - 48) as u8, (b as u32 - 48) as u8))
}

/// True when a typed move names `mv`, in its compact or its full text.
pub fn move_matches_input(mv: &Move, input: &str) -> (r: bool)
    ensures
        r == (normalized(input@) == normalized(ascii_chars(compact_text(*mv))) || normalized(input@)
            == normalized(ascii_chars(move_text(*mv)))),
{
    let normalized_input = normalize_move_text(input);
    let compact = format_move_compact(mv);
    if normalized_input == normalize_move_text(compact.as_str()) {
        return true;
    }
    let full = format_move(mv);
    normalized_input == normalize_move_text(full.as_str())
}

/// True when one side has borne off all fifteen checkers.
pub fn is_game_over_cli(board: &Board) -> (over: bool)
    ensures
        over == (key_board(board.spec_key())[0][0] >= 15 || key_board(board.spec_key())[1][0] >= 15),
{
    let raw = raw_board(board);
    raw[0][0] >= 15 || raw[1][0] >= 15
}

/// One cell of the text board.
pub open spec fn cell_text(count: u32, symbol: char, row: u32) -> Seq<char> {
    if count > row {
        seq![symbol, ' ', ' ']
    } else {
        seq!['.', ' ', ' ']
    }
}

/// The cells of `side[lo..hi]`, left to right.
pub open spec fn cells_up(side: [u32; 25], symbol: char, row: u32, lo: int, hi: int) -> Seq<char>
    decreases hi - lo,
{
    if hi <= lo {
        Seq::empty()
    } else {
        cells_up(side, symbol, row, lo, hi - 1) + cell_text(side[hi - 1], symbol, row)
    }
}

/// The cells of points `hi` down to `lo + 1` counted from the other side:
/// `side[24 - point]`.
pub open spec fn cells_down(side: [u32; 25], symbol: char, row: u32, hi: int, lo: int) -> Seq<char>
    decreases hi - lo,
{
    if hi <= lo {
        Seq::empty()
    } else {
        cells_down(side, symbol, row, hi, lo + 1) + cell_text(side[24 - (lo + 1)], symbol, row)
    }
}

/// A row of the upper half of the text board.
pub open spec fn upper_row(b: crate::types::Board, row: u32) -> Seq<char> {
    "| "@ + cells_up(b[1], 'X', row, 13, 19) + " |  "@ + cell_text(b[1][24], 'X', row) + " | "@
        + cells_up(b[1], 'X', row, 19, 25) + " |\n"@
}

/// A row of the lower half of the text board.
pub open spec fn lower_row(b: crate::types::Board, row: u32) -> Seq<char> {
    "| "@ + cells_down(b[0], 'O', row, 12, 6) + " |  "@ + cell_text(b[0][24], 'O', row) + " | "@
        + cells_down(b[0], 'O', row, 6, 0) + " |\n"@
}

/// The first `n` rows of one half of the board, from row 4 down.
pub open spec fn half_rows(b: crate::types::Board, upper: bool, n: int) -> Seq<char>
    decreases n,
{
    if n <= 0 {
        Seq::empty()
    } else {
        half_rows(b, upper, n - 1) + if upper {
            upper_row(b, (5 - n) as u32)
        } else {
            lower_row(b, (5 - n) as u32)
        }
    }
}

/// The text board of a position.
pub open spec fn board_text(b: crate::types::Board) -> Seq<char> {
    "13 14 15 16 17 18       19 20 21 22 23 24\n"@ + "+--------------------------+------------------+\n"@
        + half_rows(b, true, 5) + "|                  BAR|                       |\n"@ + half_rows(
        b,
        false,
        5,
    ) + "+--------------------------+------------------+\n"@
        + "12 11 10  9  8  7        6  5  4  3  2  1\n"@
}

fn push_cells_up(out: &mut String, side: &[u32; 25], symbol: char, row: u32, lo: usize, hi: usize)
    requires
        lo <= hi <= 25,
    ensures
        final(out)@ == old(out)@ + cells_up(*side, symbol, row, lo as int, hi as int),
{
    let ghost start = out@;
    let mut p = lo;
    while p < hi
        invariant
            lo <= p <= hi <= 25,
            out@ == start + cells_up(*side, symbol, row, lo as int, p as int),
        decreases hi - p,
    {
        let c = checker_cell(side[p], symbol, row);
        out.append(c.as_str());
        proof {
            assert(out@ =~= start + cells_up(*side, symbol, row, lo as int, p + 1));
        }
        p = p + 1;
    }
}

fn push_cells_down(out: &mut String, side: &[u32; 25], symbol: char, row: u32, hi: usize, lo: usize)
    requires
        lo <= hi <= 24,
    ensures
        final(out)@ == old(out)@ + cells_down(*side, symbol, row, hi as int, lo as int),
{
    let ghost start = out@;
    let mut point = hi;
    proof {
        assert(cells_down(*side, symbol, row, hi as int, hi as int) =~= Seq::<char>::empty());
        assert(out@ =~= start + cells_down(*side, symbol, row, hi as int, hi as int));
    }
    while point > lo
        invariant
            lo <= point <= hi <= 24,
            out@ == start + cells_down(*side, symbol, row, hi as int, point as int),
        decreases point,
    {
        let c = checker_cell(side[24 - point], symbol, row);
        out.append(c.as_str());
        proof {
            lemma_cells_down_split(*side, symbol, row, hi as int, (point - 1) as int);
            assert(out@ =~= start + cells_down(*side, symbol, row, hi as int, point - 1));
        }
        point = point - 1;
    }
}

proof fn lemma_cells_down_split(side: [u32; 25], symbol: char, row: u32, hi: int, lo: int)
    requires
        0 <= lo < hi,
    ensures
        cells_down(side, symbol, row, hi, lo) == cells_down(side, symbol, row, hi, lo + 1) + cell_text(
            side[24 - (lo + 1)],
            symbol,
            row,
        ),
{
}

/// Draw a position as text: the player's checkers `X` on top, the
/// opponent's `O` below, five rows each, bars in the middle column.
pub fn render_board(board: &Board) -> (s: String)
    ensures
        s@ == board_text(key_board(board.spec_key())),
{
    let raw = raw_board(board);
    let mut out = String::new();
    out.append("13 14 15 16 17 18       19 20 21 22 23 24\n");
    out.append("+--------------------------+------------------+\n");
    let ghost top = out@;
    let mut row: u32 = 5;
    proof {
        assert(out@ =~= top + half_rows(raw, true, 5 - 5));
    }
    while row > 0
        invariant
            row <= 5,
            out@ == top + half_rows(raw, true, 5 - row),
        decreases row,
    {
        row = row - 1;
        out.append("| ");
        push_cells_up(&mut out, &raw[1], 'X', row, 13, 19);
        out.append(" |  ");
        let c = checker_cell(raw[1][24], 'X', row);
        out.append(c.as_str());
        out.append(" | ");
        push_cells_up(&mut out, &raw[1], 'X', row, 19, 25);
        out.append(" |\n");
        proof {
            assert(out@ =~= top + half_rows(raw, true, 5 - row));
        }
    }
    out.append("|                  BAR|                       |\n");
    let ghost mid = out@;
    let mut row2: u32 = 5;
    proof {
        assert(out@ =~= mid + half_rows(raw, false, 5 - 5));
    }
    while row2 > 0
        invariant
            row2 <= 5,
            out@ == mid + half_rows(raw, false, 5 - row2),
        decreases row2,
    {
        row2 = row2 - 1;
        out.append("| ");
        push_cells_down(&mut out, &raw[0], 'O', row2, 12, 6);
        out.append(" |  ");
        let c = checker_cell(raw[0][24], 'O', row2);
        out.append(c.as_str());
        out.append(" | ");
        push_cells_down(&mut out, &raw[0], 'O', row2, 6, 0);
        out.append(" |\n");
        proof {
            assert(out@ =~= mid + half_rows(raw, false, 5 - row2));
        }
    }
    out.append("+--------------------------+------------------+\n");
    out.append("12 11 10  9  8  7        6  5  4  3  2  1\n");
    proof {
        assert(out@ =~= board_text(raw));
    }
    out
}

} // verus!
