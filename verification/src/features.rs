//! The integer features of one side of a contact position, which the
//! neural-network inputs are scaled from.
use vstd::prelude::*;
use crate::classify::{back_checker, back_index};

verus! {

/// Bit `i` of the escape mask of `row` seen from distance `n`: point
/// `24 + i - n` holds a made point (two or more checkers), for `i` below
/// `min(n, 12)`.
pub open spec fn mask_bit(row: [u32; 25], n: int, i: int) -> bool {
    &&& 0 <= i < 12
    &&& i < n
    &&& 0 <= 24 + i - n < 25
    &&& row[24 + i - n] >= 2
}

/// Bit `k` of `af` is set.
pub open spec fn has_bit(af: i32, k: u32) -> bool {
    (af & (1i32 << k)) != 0
}

proof fn lemma_or_bit(af: i32, i: u32, k: u32)
    by (bit_vector)
    requires
        i < 12,
        k < 12,
        0 <= af < (1i32 << i),
    ensures
        has_bit(af | (1i32 << i), k) == (has_bit(af, k) || k == i),
        0 <= (af | (1i32 << i)) < (1i32 << ((i + 1) as u32)),
        af < (1i32 << ((i + 1) as u32)),
        k >= i ==> !has_bit(af, k),
{
}

proof fn lemma_shift_small(i: u32)
    by (bit_vector)
    requires
        i <= 12,
    ensures
        (1i32 << i) <= 4096,
        (1i32 << 0u32) == 1,
        0 < (1i32 << i),
{
}

/// The escape mask of `row` from distance `n`: bit `i` set when point
/// `24 + i - n` is made, for `i` below `min(n, 12)`.
pub fn escape_mask(board: &[u32; 25], n: i32) -> (af: i32)
    ensures
        0 <= af < 4096,
        forall|k: u32| k < 12 ==> #[trigger] has_bit(af, k) == mask_bit(*board, n as int, k as int),
{
    let m: i32 = if n > 12 {
        12
    } else if n < 0 {
        0
    } else {
        n
    };
    let mut af: i32 = 0;
    let mut i: i32 = 0;
    proof {
        lemma_shift_small(0);
        assert forall|k: u32| k < 12 implies #[trigger] has_bit(0i32, k) == false by {
            lemma_or_bit(0, 0, k);
        }
    }
    while i < m
        invariant
            0 <= m <= 12,
            m == (if n > 12 { 12 } else if n < 0 { 0 } else { n }),
            0 <= i <= m,
            0 <= af < (1i32 << (i as u32)),
            forall|k: u32|
                k < 12 ==> #[trigger] has_bit(af, k) == (k < i && mask_bit(*board, n as int, k as int)),
        decreases m - i,
    {
        let idx = 24 + i - n;
        let ghost iu = i as u32;
        if 0 <= idx && idx < 25 && board[idx as usize] >= 2 {
            proof {
                assert forall|k: u32| k < 12 implies #[trigger] has_bit(af | (1i32 << iu), k) == (k < i
                    + 1 && mask_bit(*board, n as int, k as int)) by {
                    lemma_or_bit(af, iu, k);
                }
                lemma_or_bit(af, iu, 0);
            }
            af = af | (1i32 << (i as u32));
        } else {
            proof {
                lemma_or_bit(af, iu, 0);
                assert forall|k: u32| k < 12 implies #[trigger] has_bit(af, k) == (k < i + 1 && mask_bit(
                    *board,
                    n as int,
                    k as int,
                )) by {
                    lemma_or_bit(af, iu, k);
                }
            }
        }
        i = i + 1;
    }
    proof {
        lemma_shift_small(i as u32);
        assert forall|k: u32| k < 12 implies #[trigger] has_bit(af, k) == mask_bit(
            *board,
            n as int,
            k as int,
        ) by {
            if k >= i {
                assert(!mask_bit(*board, n as int, k as int));
            }
        }
    }
    af
}

/// A roll `(n0 + 1, n1 + 1)` escapes past the made points of the mask:
/// the point the whole roll reaches is open, and not both dice are blocked.
pub open spec fn escape_pair(row: [u32; 25], n: int, n0: int, n1: int) -> bool {
    !mask_bit(row, n, n0 + n1 + 1) && !(mask_bit(row, n, n0) && mask_bit(row, n, n1))
}

/// The rolls `(n0 + 1, n1 + 1)`, `n1 < m1`, that escape and whose total
/// reaches beyond `low`, counted with their number of orders.
pub open spec fn escape_row(row: [u32; 25], n: int, low: int, n0: int, m1: int) -> int
    decreases m1,
{
    if m1 <= 0 {
        0
    } else {
        let n1 = m1 - 1;
        escape_row(row, n, low, n0, n1) + if n0 + n1 + 1 > low && escape_pair(row, n, n0, n1) {
            if n0 == n1 {
                1int
            } else {
                2int
            }
        } else {
            0int
        }
    }
}

/// The escaping rolls whose higher die is below `m0 + 1`.
pub open spec fn escape_total(row: [u32; 25], n: int, low: int, m0: int) -> int
    decreases m0,
{
    if m0 <= 0 {
        0
    } else {
        escape_total(row, n, low, m0 - 1) + escape_row(row, n, low, m0 - 1, m0)
    }
}

/// The number of the 36 rolls that escape from distance `n`.
pub open spec fn escape_count(row: [u32; 25], n: int) -> int {
    escape_total(row, n, -1, 6)
}

/// The lowest set bit of the mask at or above `i`, or 12 when none is.
pub open spec fn lowest_mask_bit(row: [u32; 25], n: int, i: int) -> int
    decreases 12 - i,
{
    if i >= 12 {
        12
    } else if mask_bit(row, n, i) {
        i
    } else {
        lowest_mask_bit(row, n, i + 1)
    }
}

/// The escaping rolls that also get past the nearest made point.
pub open spec fn escape1_count(row: [u32; 25], n: int) -> int {
    let low = lowest_mask_bit(row, n, 0);
    if low >= 12 {
        0
    } else {
        escape_total(row, n, low, 6)
    }
}

proof fn lemma_escape_row_bound(row: [u32; 25], n: int, low: int, n0: int, m1: int)
    requires
        0 <= m1,
    ensures
        0 <= escape_row(row, n, low, n0, m1) <= 2 * m1,
    decreases m1,
{
    if m1 > 0 {
        lemma_escape_row_bound(row, n, low, n0, m1 - 1);
    }
}

proof fn lemma_escape_total_bound(row: [u32; 25], n: int, low: int, m0: int)
    requires
        0 <= m0 <= 6,
    ensures
        0 <= escape_total(row, n, low, m0) <= m0 * m0,
    decreases m0,
{
    if m0 > 0 {
        lemma_escape_total_bound(row, n, low, m0 - 1);
        lemma_escape_row_bound(row, n, low, m0 - 1, m0);
        assert((m0 - 1) * (m0 - 1) + 2 * m0 <= m0 * m0 + 1) by (nonlinear_arith);
        assert(escape_row(row, n, low, m0 - 1, m0) <= 2 * (m0 - 1) + 1) by {
            lemma_escape_row_bound(row, n, low, m0 - 1, m0 - 1);
            reveal_with_fuel(escape_row, 2);
        }
        assert((m0 - 1) * (m0 - 1) + 2 * (m0 - 1) + 1 == m0 * m0) by (nonlinear_arith);
    }
}

/// Count the escaping rolls of the mask `af`, keeping those whose total
/// reaches beyond `low`.
fn count_escapes(board: &[u32; 25], n: i32, af: i32, low: i32) -> (count: i32)
    requires
        0 <= af < 4096,
        forall|k: u32| k < 12 ==> #[trigger] has_bit(af, k) == mask_bit(*board, n as int, k as int),
    ensures
        count == escape_total(*board, n as int, low as int, 6),
{
    let mut count: i32 = 0;
    let mut n0: i32 = 0;
    while n0 <= 5
        invariant
            0 <= n0 <= 6,
            forall|k: u32| k < 12 ==> #[trigger] has_bit(af, k) == mask_bit(*board, n as int, k as int),
            count == escape_total(*board, n as int, low as int, n0 as int),
            0 <= count <= n0 * n0,
        decreases 6 - n0,
    {
        let mut n1: i32 = 0;
        let ghost base = count;
        proof {
            lemma_escape_total_bound(*board, n as int, low as int, n0 as int);
        }
        while n1 <= n0
            invariant
                0 <= n0 <= 5,
                0 <= n1 <= n0 + 1,
                forall|k: u32| k < 12 ==> #[trigger] has_bit(af, k) == mask_bit(*board, n as int, k as int),
                base == escape_total(*board, n as int, low as int, n0 as int),
                0 <= base <= n0 * n0,
                count == base + escape_row(*board, n as int, low as int, n0 as int, n1 as int),
            decreases n0 + 1 - n1,
        {
            proof {
                lemma_escape_row_bound(*board, n as int, low as int, n0 as int, n1 as int);
                assert(n0 * n0 <= 25) by (nonlinear_arith)
                    requires
                        0 <= n0 <= 5,
                ;
                assert(has_bit(af, (n0 + n1 + 1) as u32) == mask_bit(*board, n as int, n0 + n1 + 1));
                assert(has_bit(af, n0 as u32) == mask_bit(*board, n as int, n0 as int));
                assert(has_bit(af, n1 as u32) == mask_bit(*board, n as int, n1 as int));
            }
            if n0 + n1 + 1 > low && (af & (1i32 << ((n0 + n1 + 1) as u32))) == 0 && !((af & (1i32
                << (n0 as u32))) != 0 && (af & (1i32 << (n1 as u32))) != 0) {
                count = count + if n0 == n1 {
                    1
                } else {
                    2
                };
            }
            n1 = n1 + 1;
        }
        proof {
            lemma_escape_total_bound(*board, n as int, low as int, (n0 + 1) as int);
        }
        n0 = n0 + 1;
    }
    count
}

/// The number of the 36 rolls that escape past the made points in front
/// of a checker `n` points from home.
pub fn escapes(board: &[u32; 25], n: i32) -> (count: i32)
    ensures
        count == escape_count(*board, n as int),
{
    let af = escape_mask(board, n);
    count_escapes(board, n, af, -1)
}

/// Like `escapes`, keeping only the rolls that get past the nearest made
/// point.
pub fn escapes1(board: &[u32; 25], n: i32) -> (count: i32)
    ensures
        count == escape1_count(*board, n as int),
{
    let af = escape_mask(board, n);
    if af == 0 {
        proof {
            assert forall|i: int| 0 <= i <= 12 implies lowest_mask_bit(*board, n as int, i) == 12 by {
                lemma_no_bits(*board, n as int, af, i);
            }
        }
        return 0;
    }
    let mut low: i32 = 0;
    while low < 12 && (af & (1i32 << (low as u32))) == 0
        invariant
            0 <= low <= 12,
            0 < af < 4096,
            forall|k: u32| k < 12 ==> #[trigger] has_bit(af, k) == mask_bit(*board, n as int, k as int),
            lowest_mask_bit(*board, n as int, 0) == lowest_mask_bit(*board, n as int, low as int),
            forall|k: u32| k < low ==> !#[trigger] has_bit(af, k),
        decreases 12 - low,
    {
        proof {
            assert(has_bit(af, low as u32) == mask_bit(*board, n as int, low as int));
        }
        low = low + 1;
    }
    proof {
        if low == 12 {
            lemma_some_bit(af);
            assert(!has_bit(af, 0) && !has_bit(af, 1) && !has_bit(af, 2) && !has_bit(af, 3));
            assert(!has_bit(af, 4) && !has_bit(af, 5) && !has_bit(af, 6) && !has_bit(af, 7));
            assert(!has_bit(af, 8) && !has_bit(af, 9) && !has_bit(af, 10) && !has_bit(af, 11));
        } else {
            assert(has_bit(af, low as u32) == mask_bit(*board, n as int, low as int));
            assert(lowest_mask_bit(*board, n as int, low as int) == low);
        }
    }
    count_escapes(board, n, af, low)
}

proof fn lemma_zero_mask(af: i32, k: u32)
    by (bit_vector)
    requires
        af == 0,
    ensures
        !has_bit(af, k),
{
}

proof fn lemma_no_bits(row: [u32; 25], n: int, af: i32, i: int)
    requires
        af == 0,
        forall|k: u32| k < 12 ==> #[trigger] has_bit(af, k) == mask_bit(row, n, k as int),
        0 <= i <= 12,
    ensures
        lowest_mask_bit(row, n, i) == 12,
    decreases 12 - i,
{
    if i < 12 {
        lemma_zero_mask(af, i as u32);
        assert(has_bit(af, i as u32) == mask_bit(row, n, i));
        lemma_no_bits(row, n, af, i + 1);
    }
}

proof fn lemma_some_bit(af: i32)
    by (bit_vector)
    requires
        0 < af < 4096,
    ensures
        has_bit(af, 0) || has_bit(af, 1) || has_bit(af, 2) || has_bit(af, 3) || has_bit(af, 4)
            || has_bit(af, 5) || has_bit(af, 6) || has_bit(af, 7) || has_bit(af, 8) || has_bit(af, 9)
            || has_bit(af, 10) || has_bit(af, 11),
{
}

/// No point holds more than 100000 checkers.  The features are sums and
/// products of checker counts in 32-bit arithmetic, which overflows on
/// large enough counts; a position the evaluator accepts has at most 15
/// checkers a side (`validate_board`), and this bound, far above that,
/// keeps every intermediate value in range.
pub open spec fn bounded_row(r: [u32; 25]) -> bool {
    forall|i: int| 0 <= i < 25 ==> r[i] <= 100000
}

/// How far the checkers at or beyond `nob + 1` still have to go to break
/// contact: the sum of `(i + 1 - nob) * row[i]` over those points below `n`.
pub open spec fn contact_sum(row: [u32; 25], nob: int, n: int) -> int
    decreases n,
{
    if n <= 0 {
        0
    } else {
        contact_sum(row, nob, n - 1) + if n - 1 >= nob + 1 {
            (n - nob) * row[n - 1]
        } else {
            0
        }
    }
}

/// The pips of the checkers on points below `min(upto, n)`:
/// `(i + 1) * row[i]`.
pub open spec fn pip_sum(row: [u32; 25], upto: int, n: int) -> int
    decreases n,
{
    if n <= 0 {
        0
    } else {
        pip_sum(row, upto, n - 1) + if n - 1 < upto {
            n * row[n - 1]
        } else {
            0
        }
    }
}

fn break_contact(an: &[u32; 25], nob: i32) -> (r: i32)
    requires
        bounded_row(*an),
        -1 <= nob <= 24,
    ensures
        r == contact_sum(*an, nob as int, 25),
        r >= 0,
{
    let mut sum: i32 = 0;
    let mut i: usize = 0;
    while i < 25
        invariant
            i <= 25,
            bounded_row(*an),
            -1 <= nob <= 24,
            sum == contact_sum(*an, nob as int, i as int),
            0 <= sum <= i * 2600000,
        decreases 25 - i,
    {
        if i as i32 >= nob + 1 && an[i] > 0 {
            proof {
                assert((i + 1 - nob) * an[i as int] <= 26 * 100000) by (nonlinear_arith)
                    requires
                        i + 1 - nob <= 26,
                        an[i as int] <= 100000,
                        i + 1 - nob >= 0,
                ;
                assert((i + 1 - nob) * an[i as int] >= 0) by (nonlinear_arith)
                    requires
                        i + 1 - nob >= 0,
                ;
            }
            sum = sum + (i as i32 + 1 - nob) * an[i] as i32;
        } else {
            proof {
                if i as i32 >= nob + 1 {
                    assert((i + 1 - nob) * an[i as int] == 0) by (nonlinear_arith)
                        requires
                            an[i as int] == 0,
                    ;
                }
            }
        }
        proof {
            assert(contact_sum(*an, nob as int, i + 1) == contact_sum(*an, nob as int, i as int) + if i
                >= nob + 1 {
                (i + 1 - nob) * an[i as int]
            } else {
                0
            });
        }
        i = i + 1;
    }
    sum
}

fn free_pips(an: &[u32; 25], nob: i32) -> (r: u32)
    requires
        bounded_row(*an),
        -1 <= nob <= 24,
    ensures
        r == pip_sum(*an, nob as int, 25),
{
    let mut sum: u32 = 0;
    let mut i: usize = 0;
    let upto: usize = if nob > 0 {
        nob as usize
    } else {
        0
    };
    while i < upto
        invariant
            i <= upto <= 24,
            upto == (if nob > 0 { nob as int } else { 0 }),
            bounded_row(*an),
            sum == pip_sum(*an, nob as int, i as int),
            0 <= sum <= i * 2500000,
        decreases upto - i,
    {
        proof {
            assert((i + 1) * an[i as int] <= 25 * 100000) by (nonlinear_arith)
                requires
                    i + 1 <= 25,
                    an[i as int] <= 100000,
            ;
        }
        sum = sum + (i as u32 + 1) * an[i];
        i = i + 1;
    }
    proof {
        lemma_pip_sum_rest(*an, nob as int, upto as int, 25);
    }
    sum
}

proof fn lemma_pip_sum_rest(row: [u32; 25], upto: int, from: int, n: int)
    requires
        from <= n,
        from >= upto,
        from >= 0,
    ensures
        pip_sum(row, upto, n) == pip_sum(row, upto, from),
    decreases n - from,
{
    if n > from {
        lemma_pip_sum_rest(row, upto, from, n - 1);
    }
}

/// The highest point at or below `p` holding two or more checkers, or 0.
pub open spec fn anchor_below(row: [u32; 25], p: int) -> int
    decreases p + 1,
{
    if p < 0 {
        0
    } else if row[p] >= 2 {
        p
    } else {
        anchor_below(row, p - 1)
    }
}

/// The lowest point from `j` up to `hi` holding two or more checkers.
pub open spec fn anchor_up(row: [u32; 25], j: int, hi: int) -> Option<int>
    decreases hi - j + 1,
{
    if j > hi || j >= 25 {
        None
    } else if row[j] >= 2 {
        Some(j)
    } else {
        anchor_up(row, j + 1, hi)
    }
}

/// The highest point from `j` down to 12 holding two or more checkers.
pub open spec fn anchor_down(row: [u32; 25], j: int) -> Option<int>
    decreases j + 1,
{
    if j < 12 {
        None
    } else if row[j] >= 2 {
        Some(j)
    } else {
        anchor_down(row, j - 1)
    }
}

/// The distance from home of the most advanced anchor, searched from
/// point 18 up to `anchor`, then from 17 down to 12; 0 when there is none.
pub open spec fn forward_anchor_of(row: [u32; 25], anchor: int) -> int {
    match anchor_up(row, 18, anchor) {
        Some(j) => 24 - j,
        None => match anchor_down(row, 17) {
            Some(j) => 24 - j,
            None => 0,
        },
    }
}

fn back_anchor(an: &[u32; 25], n_back: usize) -> (a: usize)
    requires
        n_back <= 24,
    ensures
        a == anchor_below(*an, if n_back == 24 { 23 } else { n_back as int }),
        a <= 23,
{
    let start: usize = if n_back == 24 {
        23
    } else {
        n_back
    };
    let mut i: usize = start + 1;
    while i > 0
        invariant
            i <= start + 1,
            start <= 23,
            start == (if n_back == 24 { 23 } else { n_back as int }),
            anchor_below(*an, start as int) == anchor_below(*an, i - 1),
        decreases i,
    {
        if an[i - 1] >= 2 {
            proof {
                assert(anchor_below(*an, i - 1) == i - 1);
            }
            return i - 1;
        }
        i = i - 1;
    }
    0
}

fn forward_anchor(an: &[u32; 25], anchor: usize) -> (f: u32)
    requires
        anchor <= 23,
    ensures
        f == forward_anchor_of(*an, anchor as int),
{
    let mut j: usize = 18;
    while j <= anchor
        invariant
            18 <= j <= 24,
            anchor <= 23,
            anchor_up(*an, 18, anchor as int) == anchor_up(*an, j as int, anchor as int),
        decreases anchor + 1 - j,
    {
        if an[j] >= 2 {
            return 24 - j as u32;
        }
        j = j + 1;
    }
    let mut k: usize = 18;
    while k > 12
        invariant
            12 <= k <= 18,
            anchor_up(*an, 18, anchor as int) is None,
            anchor_down(*an, 17) == anchor_down(*an, k - 1),
        decreases k,
    {
        if an[k - 1] >= 2 {
            return 24 - (k - 1) as u32;
        }
        k = k - 1;
    }
    0
}

/// The number of points below `n` holding two or more checkers.
pub open spec fn made_points(row: [u32; 25], n: int) -> int
    decreases n,
{
    if n <= 0 {
        0
    } else {
        made_points(row, n - 1) + if row[n - 1] >= 2 {
            1int
        } else {
            0int
        }
    }
}

/// A checker `dist` pips behind the blot at `blot` can hit it: it exists,
/// and it is not one of the last two checkers of an inner point while
/// fewer than three inner points are made.
pub open spec fn can_hit(an: [u32; 25], inner: int, blot: int, dist: int) -> bool {
    let hitter = blot + dist;
    &&& hitter < 25
    &&& an[hitter] > 0
    &&& !(hitter < 6 && an[hitter] == 2 && inner < 3)
}

/// The opponent's blot at `blot` can be hit with the roll `(d0, d1)`.
pub open spec fn blot_hit(an: [u32; 25], opp: [u32; 25], inner: int, blot: int, d0: int, d1: int) -> bool {
    opp[blot] == 1 && (can_hit(an, inner, blot, d0) || can_hit(an, inner, blot, d1) || can_hit(
        an,
        inner,
        blot,
        d0 + d1,
    ))
}

/// The number of blots below `n` that the roll hits.
pub open spec fn roll_hits(an: [u32; 25], opp: [u32; 25], inner: int, d0: int, d1: int, n: int) -> int
    decreases n,
{
    if n <= 0 {
        0
    } else {
        roll_hits(an, opp, inner, d0, d1, n - 1) + if blot_hit(an, opp, inner, n - 1, d0, d1) {
            1int
        } else {
            0int
        }
    }
}

/// The pips lost by the farthest-forward blot below `n` that the roll hits
/// (its point plus one), or 0.
pub open spec fn roll_best(an: [u32; 25], opp: [u32; 25], inner: int, d0: int, d1: int, n: int) -> int
    decreases n,
{
    if n <= 0 {
        0
    } else if blot_hit(an, opp, inner, n - 1, d0, d1) {
        n
    } else {
        roll_best(an, opp, inner, d0, d1, n - 1)
    }
}

/// The hits of roll number `r` of the 36 (`r / 6 + 1`, `r % 6 + 1`).
pub open spec fn hits_of_roll(an: [u32; 25], opp: [u32; 25], r: int) -> int {
    roll_hits(an, opp, made_points(an, 6), r / 6 + 1, r % 6 + 1, 24)
}

/// The pips at stake in roll number `r`.
pub open spec fn best_of_roll(an: [u32; 25], opp: [u32; 25], r: int) -> int {
    roll_best(an, opp, made_points(an, 6), r / 6 + 1, r % 6 + 1, 24)
}

/// Over the first `k` of the 36 rolls: how many hit, how many hit twice
/// or more, and the pips they put at stake.
pub open spec fn hit_tally(an: [u32; 25], opp: [u32; 25], k: int) -> (int, int, int)
    decreases k,
{
    if k <= 0 {
        (0, 0, 0)
    } else {
        let (h, m, p) = hit_tally(an, opp, k - 1);
        let n = hits_of_roll(an, opp, k - 1);
        (
            h + if n > 0 { 1int } else { 0int },
            m + if n > 1 { 1int } else { 0int },
            p + if n > 0 { best_of_roll(an, opp, k - 1) } else { 0int },
        )
    }
}

fn count_made(an: &[u32; 25]) -> (n: u32)
    ensures
        n == made_points(*an, 6),
        n <= 6,
{
    let mut n: u32 = 0;
    let mut i: usize = 0;
    while i < 6
        invariant
            i <= 6,
            n == made_points(*an, i as int),
            n <= i,
        decreases 6 - i,
    {
        if an[i] >= 2 {
            n = n + 1;
        }
        i = i + 1;
    }
    n
}

fn hit_check(an: &[u32; 25], inner: u32, blot: usize, dist: usize) -> (h: bool)
    requires
        blot < 24,
        dist <= 12,
    ensures
        h == can_hit(*an, inner as int, blot as int, dist as int),
{
    let hitter = blot + dist;
    hitter < 25 && an[hitter] > 0 && !(hitter < 6 && an[hitter] == 2 && inner < 3)
}

/// For each of the 36 rolls, the blots it hits: returns how many rolls
/// hit, how many hit twice or more, and the total pips at stake.
fn hit_counts(an: &[u32; 25], opp: &[u32; 25]) -> (r: (u32, u32, u32))
    ensures
        r.0 as int == hit_tally(*an, *opp, 36).0,
        r.1 as int == hit_tally(*an, *opp, 36).1,
        r.2 as int == hit_tally(*an, *opp, 36).2,
{
    let inner = count_made(an);
    let mut hit_rolls: u32 = 0;
    let mut multi: u32 = 0;
    let mut pip_loss: u32 = 0;
    let mut k: usize = 0;
    while k < 36
        invariant
            k <= 36,
            inner == made_points(*an, 6),
            (hit_rolls as int, multi as int, pip_loss as int) == hit_tally(*an, *opp, k as int),
            hit_rolls <= k,
            multi <= k,
            pip_loss <= 24 * k,
        decreases 36 - k,
    {
        let d0 = k / 6 + 1;
        let d1 = k % 6 + 1;
        let mut hits: u32 = 0;
        let mut best: u32 = 0;
        let mut blot: usize = 0;
        while blot < 24
            invariant
                blot <= 24,
                k < 36,
                d0 == k / 6 + 1,
                d1 == k % 6 + 1,
                inner == made_points(*an, 6),
                hits as int == roll_hits(*an, *opp, inner as int, d0 as int, d1 as int, blot as int),
                best as int == roll_best(*an, *opp, inner as int, d0 as int, d1 as int, blot as int),
                hits <= blot,
                best <= blot,
            decreases 24 - blot,
        {
            if opp[blot] == 1 {
                if hit_check(an, inner, blot, d0) || hit_check(an, inner, blot, d1) || hit_check(
                    an,
                    inner,
                    blot,
                    d0 + d1,
                ) {
                    hits = hits + 1;
                    best = blot as u32 + 1;
                }
            }
            blot = blot + 1;
        }
        if hits > 0 {
            hit_rolls = hit_rolls + 1;
            pip_loss = pip_loss + best;
        }
        if hits > 1 {
            multi = multi + 1;
        }
        k = k + 1;
    }
    (hit_rolls, multi, pip_loss)
}

/// The fewest escaping rolls from the distances `lo` to `hi - 1`, or 36.
pub open spec fn min_escapes(row: [u32; 25], lo: int, hi: int) -> int
    decreases hi - lo,
{
    if hi <= lo {
        36
    } else {
        let rest = min_escapes(row, lo, hi - 1);
        let e = escape_count(row, hi - 1);
        if e < rest {
            e
        } else {
            rest
        }
    }
}

proof fn lemma_escape_count_bound(row: [u32; 25], n: int)
    ensures
        0 <= escape_count(row, n) <= 36,
{
    lemma_escape_total_bound(row, n, -1, 6);
}

fn fewest_escapes(an: &[u32; 25], lo: i32, hi: i32) -> (m: i32)
    requires
        0 <= lo <= hi <= 25,
    ensures
        m == min_escapes(*an, lo as int, hi as int),
        0 <= m <= 36,
{
    let mut m: i32 = 36;
    let mut i: i32 = lo;
    while i < hi
        invariant
            lo <= i <= hi <= 25,
            m == min_escapes(*an, lo as int, i as int),
            0 <= m <= 36,
        decreases hi - i,
    {
        let e = escapes(an, i);
        proof {
            lemma_escape_count_bound(*an, i as int);
        }
        if e < m {
            m = e;
        }
        i = i + 1;
    }
    m
}

/// The mobility of the checkers on points 6 to `n - 1`: pips beyond point
/// 5, times checkers, times the rolls that escape the opponent from there.
pub open spec fn mobility_sum(an: [u32; 25], opp: [u32; 25], n: int) -> int
    decreases n,
{
    if n <= 6 {
        0
    } else {
        mobility_sum(an, opp, n - 1) + (n - 1 - 5) * an[n - 1] * escape_count(opp, n - 1)
    }
}

fn mobility(an: &[u32; 25], opp: &[u32; 25]) -> (r: u32)
    requires
        bounded_row(*an),
    ensures
        r == mobility_sum(*an, *opp, 25),
{
    let mut sum: u32 = 0;
    let mut i: usize = 6;
    while i < 25
        invariant
            6 <= i <= 25,
            bounded_row(*an),
            sum == mobility_sum(*an, *opp, i as int),
            sum <= (i - 6) * 68400000,
        decreases 25 - i,
    {
        let e = escapes(opp, i as i32);
        proof {
            lemma_escape_count_bound(*opp, i as int);
            assert((i - 5) * an[i as int] * e <= 19 * 100000 * 36) by (nonlinear_arith)
                requires
                    0 <= i - 5 <= 19,
                    an[i as int] <= 100000,
                    0 <= e <= 36,
            ;
            assert((i - 5) * an[i as int] * e >= 0) by (nonlinear_arith)
                requires
                    0 <= i - 5,
                    0 <= e,
            ;
            assert((i - 5) * an[i as int] <= 1900000) by (nonlinear_arith)
                requires
                    0 <= i - 5 <= 19,
                    an[i as int] <= 100000,
            ;
        }
        if an[i] > 0 {
            sum = sum + (i as u32 - 5) * an[i] * e as u32;
        } else {
            proof {
                assert((i - 5) * an[i as int] * e == 0) by (nonlinear_arith)
                    requires
                        an[i as int] == 0,
                ;
            }
        }
        i = i + 1;
    }
    sum
}

/// The checkers on the points below `n`.
pub open spec fn count_sum(an: [u32; 25], n: int) -> int
    decreases n,
{
    if n <= 0 {
        0
    } else {
        count_sum(an, n - 1) + an[n - 1]
    }
}

/// The pips of the checkers on the points below `n`: `i * an[i]`.
pub open spec fn index_sum(an: [u32; 25], n: int) -> int
    decreases n,
{
    if n <= 0 {
        0
    } else {
        index_sum(an, n - 1) + (n - 1) * an[n - 1]
    }
}

/// The checkers beyond `avg` on the points below `n`.
pub open spec fn tail_count(an: [u32; 25], avg: int, n: int) -> int
    decreases n,
{
    if n <= 0 {
        0
    } else {
        tail_count(an, avg, n - 1) + if n - 1 > avg {
            an[n - 1] as int
        } else {
            0
        }
    }
}

/// The second moment about `avg` of the checkers beyond it on the points
/// below `n`.
pub open spec fn tail_moment(an: [u32; 25], avg: int, n: int) -> int
    decreases n,
{
    if n <= 0 {
        0
    } else {
        tail_moment(an, avg, n - 1) + if n - 1 > avg {
            an[n - 1] * ((n - 1 - avg) * (n - 1 - avg))
        } else {
            0
        }
    }
}

/// `a / b`, rounded up.
pub open spec fn ceil_div(a: int, b: int) -> int {
    a / b + if a % b == 0 {
        0int
    } else {
        1int
    }
}

/// The second moment of the checkers beyond their (rounded-up) average
/// point, per checker and rounded up; 0 when there are none.
pub open spec fn moment2_of(an: [u32; 25]) -> int {
    let total = count_sum(an, 25);
    if total > 0 {
        let avg = ceil_div(index_sum(an, 25), total);
        let count = tail_count(an, avg, 25);
        if count > 0 {
            ceil_div(tail_moment(an, avg, 25), count)
        } else {
            0
        }
    } else {
        0
    }
}

fn div_ceil(a: u32, b: u32) -> (r: u32)
    requires
        b > 0,
    ensures
        r == ceil_div(a as int, b as int),
{
    proof {
        assert(a % b != 0 ==> a / b < u32::MAX) by (nonlinear_arith)
            requires
                b > 0,
                a <= u32::MAX,
        ;
    }
    a / b + if a % b == 0 {
        0
    } else {
        1
    }
}

proof fn lemma_avg_bound(w: int, t: int)
    requires
        t > 0,
        0 <= w <= 24 * t,
    ensures
        0 <= ceil_div(w, t) <= 24,
{
    assert(w / t <= 24) by (nonlinear_arith)
        requires
            t > 0,
            0 <= w <= 24 * t,
    ;
    assert(w / t >= 0) by (nonlinear_arith)
        requires
            t > 0,
            0 <= w,
    ;
    assert(w / t == 24 ==> w % t == 0) by (nonlinear_arith)
        requires
            t > 0,
            0 <= w <= 24 * t,
    ;
}

proof fn lemma_index_sum_bound(an: [u32; 25], n: int)
    requires
        0 <= n <= 25,
    ensures
        0 <= index_sum(an, n) <= 24 * count_sum(an, n),
        0 <= count_sum(an, n),
    decreases n,
{
    if n > 0 {
        lemma_index_sum_bound(an, n - 1);
        assert((n - 1) * an[n - 1] <= 24 * an[n - 1]) by (nonlinear_arith)
            requires
                n - 1 <= 24,
        ;
        assert((n - 1) * an[n - 1] >= 0) by (nonlinear_arith)
            requires
                n >= 1,
        ;
    }
}

fn moment2(an: &[u32; 25]) -> (r: u32)
    requires
        bounded_row(*an),
    ensures
        r == moment2_of(*an),
{
    let mut total: u32 = 0;
    let mut weighted: u32 = 0;
    let mut i: usize = 0;
    while i < 25
        invariant
            i <= 25,
            bounded_row(*an),
            total == count_sum(*an, i as int),
            weighted == index_sum(*an, i as int),
            total <= i * 100000,
            weighted <= i * 2400000,
        decreases 25 - i,
    {
        proof {
            assert(i * an[i as int] <= 2400000) by (nonlinear_arith)
                requires
                    i <= 24,
                    an[i as int] <= 100000,
            ;
        }
        total = total + an[i];
        weighted = weighted + i as u32 * an[i];
        i = i + 1;
    }
    if total == 0 {
        return 0;
    }
    proof {
        lemma_index_sum_bound(*an, 25);
        lemma_avg_bound(weighted as int, total as int);
    }
    let avg = div_ceil(weighted, total);
    let mut count: u32 = 0;
    let mut moment: u32 = 0;
    let mut j: usize = 0;
    while j < 25
        invariant
            j <= 25,
            avg <= 24,
            bounded_row(*an),
            count == tail_count(*an, avg as int, j as int),
            moment == tail_moment(*an, avg as int, j as int),
            count <= j * 100000,
            moment <= j * 57600000,
        decreases 25 - j,
    {
        if j as u32 > avg {
            let d = j as u32 - avg;
            proof {
                assert(d * d <= 576) by (nonlinear_arith)
                    requires
                        0 <= d <= 24,
                ;
                assert(an[j as int] * (d * d) <= 100000 * 576) by (nonlinear_arith)
                    requires
                        an[j as int] <= 100000,
                        0 <= d <= 24,
                ;
            }
            count = count + an[j];
            moment = moment + an[j] * (d * d);
        }
        j = j + 1;
    }
    if count > 0 {
        div_ceil(moment, count)
    } else {
        0
    }
}

/// The entering losses of points `j` from `i + 1` to `n - 1` after point
/// `i`: with `i` made, each made `j` costs `2 * (i + j + 2)` and each open
/// one `2 * (i + 1)` when two checkers are up; with `i` open and two up,
/// each made `j` costs `2 * (j + 1)`.
pub open spec fn enter_inner(opp: [u32; 25], two: bool, i: int, n: int) -> int
    decreases n - i,
{
    if n <= i + 1 {
        0
    } else {
        let j = n - 1;
        enter_inner(opp, two, i, n - 1) + if opp[i] > 1 {
            if opp[j] > 1 {
                2 * (i + j + 2)
            } else if two {
                2 * (i + 1)
            } else {
                0
            }
        } else if two && opp[j] > 1 {
            2 * (j + 1)
        } else {
            0
        }
    }
}

/// The entering losses over the opponent's home points below `n`.
pub open spec fn enter_outer(opp: [u32; 25], two: bool, n: int) -> int
    decreases n,
{
    if n <= 0 {
        0
    } else {
        let i = n - 1;
        enter_outer(opp, two, n - 1) + (if opp[i] > 1 {
            4 * (i + 1)
        } else {
            0
        }) + enter_inner(opp, two, i, 6)
    }
}

/// The weighted count of entering rolls lost with checkers on the bar.
pub open spec fn enter_loss_of(an: [u32; 25], opp: [u32; 25]) -> int {
    if an[24] == 0 {
        0
    } else {
        enter_outer(opp, an[24] > 1, 6)
    }
}

proof fn lemma_enter_inner_bound(opp: [u32; 25], two: bool, i: int, n: int)
    requires
        0 <= i < 6,
        n <= 6,
    ensures
        0 <= enter_inner(opp, two, i, n) <= 24 * (if n > i + 1 { n - i - 1 } else { 0 }),
    decreases n - i,
{
    if n > i + 1 {
        lemma_enter_inner_bound(opp, two, i, n - 1);
    }
}

fn enter_loss(an: &[u32; 25], opp: &[u32; 25]) -> (r: u32)
    ensures
        r == enter_loss_of(*an, *opp),
{
    if an[24] == 0 {
        return 0;
    }
    let two = an[24] > 1;
    let mut loss: u32 = 0;
    let mut i: usize = 0;
    while i < 6
        invariant
            i <= 6,
            two == (an[24] > 1),
            loss == enter_outer(*opp, two, i as int),
            loss <= i * 200,
        decreases 6 - i,
    {
        let ghost base = loss;
        if opp[i] > 1 {
            loss = loss + 4 * (i as u32 + 1);
        }
        let mut j: usize = i + 1;
        while j < 6
            invariant
                i < 6,
                i + 1 <= j <= 6,
                two == (an[24] > 1),
                base == enter_outer(*opp, two, i as int),
                base <= i * 200,
                loss == base + (if opp[i as int] > 1 { 4 * (i + 1) } else { 0 }) + enter_inner(
                    *opp,
                    two,
                    i as int,
                    j as int,
                ),
            decreases 6 - j,
        {
            proof {
                lemma_enter_inner_bound(*opp, two, i as int, j as int);
            }
            if opp[i] > 1 {
                if opp[j] > 1 {
                    loss = loss + 2 * (i as u32 + j as u32 + 2);
                } else if two {
                    loss = loss + 2 * (i as u32 + 1);
                }
            } else if two {
                if opp[j] > 1 {
                    loss = loss + 2 * (j as u32 + 1);
                }
            }
            j = j + 1;
        }
        proof {
            lemma_enter_inner_bound(*opp, two, i as int, 6);
        }
        i = i + 1;
    }
    loss
}

/// One step of the timing count at point `k`, from the state `(t, no)`:
/// beyond `m` only spare checkers count (a lone checker counts once, two
/// none); from `m` down to 6 every checker counts; in the home board the
/// spare checkers count, and each missing checker of a point takes one
/// back when enough are left.
pub open spec fn timing_step(an: [u32; 25], m: int, k: int, st: (int, int)) -> (int, int) {
    let (t, no) = st;
    let n = an[k] as int;
    if k > m {
        if n > 0 && n != 2 {
            let ns = if n > 2 {
                n - 2
            } else {
                1
            };
            (t + k * ns, no + ns)
        } else {
            (t, no)
        }
    } else if k >= 6 {
        (t + k * n, no + n)
    } else if n > 2 {
        (t + k * (n - 2), no + n - 2)
    } else if n < 2 && no >= 2 - n {
        (t - k * (2 - n), no - (2 - n))
    } else {
        (t, no)
    }
}

/// The timing count after points 23 down to `k`, starting from the bar.
pub open spec fn timing_state(an: [u32; 25], m: int, k: int) -> (int, int)
    decreases 24 - k,
{
    if k >= 24 {
        (24 * an[24], an[24] as int)
    } else {
        timing_step(an, m, k, timing_state(an, m, k + 1))
    }
}

/// The timing of a side whose opponent's farthest-back checker is
/// `n_opp_back` points from home.
pub open spec fn timing_of(an: [u32; 25], n_opp_back: int) -> int {
    timing_state(an, if n_opp_back > 11 { n_opp_back } else { 11 }, 0).0
}

proof fn lemma_timing_bound(an: [u32; 25], m: int, k: int)
    requires
        bounded_row(an),
        0 <= k <= 24,
    ensures
        0 <= timing_state(an, m, k).1 <= (25 - k) * 100000,
        -(25 - k) * 2400000 <= timing_state(an, m, k).0 <= (25 - k) * 2400000,
    decreases 24 - k,
{
    if k < 24 {
        lemma_timing_bound(an, m, k + 1);
        let (t, no) = timing_state(an, m, k + 1);
        let n = an[k] as int;
        assert(0 <= k * n <= 2400000) by (nonlinear_arith)
            requires
                0 <= k <= 23,
                0 <= n <= 100000,
        ;
        assert(n > 2 ==> 0 <= k * (n - 2) <= 2400000) by (nonlinear_arith)
            requires
                0 <= k <= 23,
                0 <= n <= 100000,
        ;
        assert(n < 2 ==> 0 <= k * (2 - n) <= 2400000) by (nonlinear_arith)
            requires
                0 <= k <= 23,
                0 <= n,
        ;
        assert(0 <= k * 1 <= 2400000);
    }
}

fn timing(an: &[u32; 25], n_opp_back: usize) -> (t: i32)
    requires
        bounded_row(*an),
        n_opp_back <= 24,
    ensures
        t == timing_of(*an, n_opp_back as int),
{
    let m: i32 = if n_opp_back > 11 {
        n_opp_back as i32
    } else {
        11
    };
    let mut t: i32 = 24 * an[24] as i32;
    let mut no: i32 = an[24] as i32;
    let mut k: i32 = 23;
    proof {
        lemma_timing_bound(*an, m as int, 24);
    }
    while k >= 0
        invariant
            -1 <= k <= 23,
            bounded_row(*an),
            m == (if n_opp_back > 11 { n_opp_back as int } else { 11 }),
            (t as int, no as int) == timing_state(*an, m as int, k + 1),
        decreases k + 1,
    {
        proof {
            lemma_timing_bound(*an, m as int, k as int);
            lemma_timing_bound(*an, m as int, k + 1);
        }
        let n = an[k as usize] as i32;
        if k > m {
            if n > 0 && n != 2 {
                let ns = if n > 2 {
                    n - 2
                } else {
                    1
                };
                no = no + ns;
                t = t + k * ns;
            }
        } else if k >= 6 {
            no = no + n;
            t = t + k * n;
        } else if n > 2 {
            t = t + k * (n - 2);
            no = no + n - 2;
        } else if n < 2 {
            let nm = 2 - n;
            if no >= nm {
                t = t - k * nm;
                no = no - nm;
            }
        }
        k = k - 1;
    }
    t
}

/// The weight of a gap of `d` points between two anchors.
pub open spec fn gap_weight(d: int) -> int {
    if d <= 6 {
        11
    } else if d == 7 {
        6
    } else if d == 8 {
        5
    } else if d == 9 {
        4
    } else if d == 10 {
        3
    } else if d == 11 {
        2
    } else {
        0
    }
}

/// The highest point from `j` down to 1 holding two or more checkers.
pub open spec fn top_anchor(an: [u32; 25], j: int) -> Option<int>
    decreases j,
{
    if j < 1 {
        None
    } else if an[j] >= 2 {
        Some(j)
    } else {
        top_anchor(an, j - 1)
    }
}

/// Over the points from `lo` up to (not including) `pa` that hold two or
/// more checkers: the gap weights to `pa` times the checkers on `pa`, and
/// the checkers on `pa` once per such point.
pub open spec fn backbone_sums(an: [u32; 25], pa: int, lo: int) -> (int, int)
    decreases pa - lo,
{
    if lo >= pa || lo < 1 {
        (0, 0)
    } else {
        let (w, total) = backbone_sums(an, pa, lo + 1);
        if an[lo] >= 2 {
            (w + gap_weight(pa - lo) * an[pa], total + an[pa])
        } else {
            (w, total)
        }
    }
}

/// The backbone sums of a side: measured from its highest anchor below the
/// bar.
pub open spec fn backbone_of(an: [u32; 25]) -> (int, int) {
    match top_anchor(an, 23) {
        Some(pa) => backbone_sums(an, pa, 1),
        None => (0, 0),
    }
}

fn gap_table(d: usize) -> (w: u32)
    requires
        d < 23,
    ensures
        w == gap_weight(d as int),
{
    let ac: [u32; 23] = [11, 11, 11, 11, 11, 11, 11, 6, 5, 4, 3, 2, 0, 0, 0, 0, 0, 0, 0, 0, 0, 0, 0];
    proof {
        assert(ac@ =~= seq![11u32, 11, 11, 11, 11, 11, 11, 6, 5, 4, 3, 2, 0, 0, 0, 0, 0, 0, 0, 0, 0, 0, 0]);
    }
    ac[d]
}

proof fn lemma_backbone_bound(an: [u32; 25], pa: int, lo: int)
    requires
        bounded_row(an),
        1 <= pa <= 23,
        lo >= 1,
    ensures
        0 <= backbone_sums(an, pa, lo).0 <= 1100000 * (if pa > lo { pa - lo } else { 0 }),
        0 <= backbone_sums(an, pa, lo).1 <= 100000 * (if pa > lo { pa - lo } else { 0 }),
    decreases pa - lo,
{
    if lo < pa {
        lemma_backbone_bound(an, pa, lo + 1);
        assert(0 <= gap_weight(pa - lo) * an[pa] <= 1100000) by (nonlinear_arith)
            requires
                0 <= gap_weight(pa - lo) <= 11,
                an[pa] <= 100000,
        ;
    }
}

fn backbone(an: &[u32; 25]) -> (r: (u32, u32))
    requires
        bounded_row(*an),
    ensures
        r.0 as int == backbone_of(*an).0,
        r.1 as int == backbone_of(*an).1,
{
    let mut j: usize = 24;
    while j > 1 && an[j - 1] < 2
        invariant
            1 <= j <= 24,
            top_anchor(*an, 23) == top_anchor(*an, j - 1),
        decreases j,
    {
        j = j - 1;
    }
    if j <= 1 {
        return (0, 0);
    }
    let pa = j - 1;
    proof {
        assert(top_anchor(*an, 23) == Some(pa as int));
    }
    let mut w: u32 = 0;
    let mut total: u32 = 0;
    let mut np: usize = pa;
    while np > 1
        invariant
            1 <= np <= pa <= 23,
            bounded_row(*an),
            (w as int, total as int) == backbone_sums(*an, pa as int, np as int),
        decreases np,
    {
        let q = np - 1;
        proof {
            lemma_backbone_bound(*an, pa as int, q as int);
            lemma_backbone_bound(*an, pa as int, np as int);
        }
        if an[q] >= 2 {
            let d = pa - q;
            let g = gap_table(d);
            w = w + g * an[pa];
            total = total + an[pa];
        }
        np = q;
    }
    (w, total)
}

/// The number of points from 18 to 23 holding two or more checkers, and
/// the checkers on points 18 to 24.
pub open spec fn back_game_of(an: [u32; 25]) -> (int, int) {
    (made_points(an, 24) - made_points(an, 18), count_sum(an, 25) - count_sum(an, 18))
}

fn back_game(an: &[u32; 25]) -> (r: (u32, u32))
    requires
        bounded_row(*an),
    ensures
        r.0 as int == back_game_of(*an).0,
        r.1 as int == back_game_of(*an).1,
{
    let mut anchors: u32 = 0;
    let mut total: u32 = 0;
    let mut i: usize = 18;
    while i < 25
        invariant
            18 <= i <= 25,
            bounded_row(*an),
            anchors as int == made_points(*an, if i < 24 { i as int } else { 24 }) - made_points(*an, 18),
            total as int == count_sum(*an, i as int) - count_sum(*an, 18),
            anchors <= i - 18,
            total <= (i - 18) * 100000,
        decreases 25 - i,
    {
        if i < 24 && an[i] > 1 {
            anchors = anchors + 1;
        }
        total = total + an[i];
        i = i + 1;
    }
    (anchors, total)
}

/// The integer features of one side (`an`) against the other (`opp`),
/// which the 25 extra network inputs of a contact position are scaled from.
#[derive(Clone, Copy, Debug, PartialEq, Eq, Structural)]
pub struct HalfCounts {
    /// Pips the side still needs to break contact.
    pub break_contact: i32,
    /// Pips of the checkers already past the opponent's last checker.
    pub free_pips: u32,
    /// The side's farthest-back point (0 when it has none).
    pub back_chequer: u32,
    /// The side's farthest-back anchor.
    pub back_anchor: u32,
    /// Distance from home of its most advanced anchor in the outfield, 0 if none.
    pub forward_anchor: u32,
    /// Of the 36 rolls: how many hit a blot, how many hit two, and the pips at stake.
    pub hit_rolls: u32,
    pub multi_hit_rolls: u32,
    pub pip_loss: u32,
    /// Rolls that escape from behind the opponent's last checker.
    pub back_escapes: i32,
    pub back_rescapes: i32,
    /// Fewest escaping rolls from the distances ahead of the opponent's last checker.
    pub acontain_min: i32,
    /// Fewest escaping rolls from the distances 15 to 23.
    pub contain_min: i32,
    pub mobility: u32,
    pub moment2: u32,
    pub enter_loss: u32,
    /// The opponent's closed home points.
    pub closed: u32,
    pub timing: i32,
    pub backbone_weight: u32,
    pub backbone_total: u32,
    /// Anchors on points 18 to 23, and checkers on points 18 to 24.
    pub back_anchors: u32,
    pub back_total: u32,
}

/// The features of side `an` against side `opp`.
pub open spec fn half_counts_spec(an: [u32; 25], opp: [u32; 25]) -> HalfCounts {
    let nob = 23 - back_index(opp);
    let n_back = if back_index(an) > 0 {
        back_index(an)
    } else {
        0
    };
    let anchor = anchor_below(an, if n_back == 24 { 23 } else { n_back });
    let (hit_rolls, multi, pip_loss) = hit_tally(an, opp, 36);
    let (bw, bt) = backbone_of(an);
    let (ba, btot) = back_game_of(an);
    HalfCounts {
        break_contact: contact_sum(an, nob, 25) as i32,
        free_pips: pip_sum(an, nob, 25) as u32,
        back_chequer: n_back as u32,
        back_anchor: anchor as u32,
        forward_anchor: forward_anchor_of(an, anchor) as u32,
        hit_rolls: hit_rolls as u32,
        multi_hit_rolls: multi as u32,
        pip_loss: pip_loss as u32,
        back_escapes: escape_count(an, 23 - nob) as i32,
        back_rescapes: escape1_count(an, 23 - nob) as i32,
        acontain_min: min_escapes(an, 15, if 24 - nob > 15 { 24 - nob } else { 15 }) as i32,
        contain_min: min_escapes(an, 15, 24) as i32,
        mobility: mobility_sum(an, opp, 25) as u32,
        moment2: moment2_of(an) as u32,
        enter_loss: enter_loss_of(an, opp) as u32,
        closed: made_points(opp, 6) as u32,
        timing: timing_of(an, if nob > 0 { nob } else { 0 }) as i32,
        backbone_weight: bw as u32,
        backbone_total: bt as u32,
        back_anchors: ba as u32,
        back_total: btot as u32,
    }
}

/// The integer features of side `an` against side `opp`.
pub fn half_counts(an: &[u32; 25], opp: &[u32; 25]) -> (c: HalfCounts)
    requires
        bounded_row(*an),
    ensures
        c == half_counts_spec(*an, *opp),
{
    let n_opp_back = back_checker(opp);
    let nob = 23 - n_opp_back;
    let bc = break_contact(an, nob);
    let fp = free_pips(an, nob);
    let b = back_checker(an);
    let n_back: usize = if b > 0 {
        b as usize
    } else {
        0
    };
    let anchor = back_anchor(an, n_back);
    let fa = forward_anchor(an, anchor);
    let (hit_rolls, multi, pip_loss) = hit_counts(an, opp);
    let be = escapes(an, 23 - nob);
    let br = escapes1(an, 23 - nob);
    let hi = if 24 - nob > 15 {
        24 - nob
    } else {
        15
    };
    let acm = fewest_escapes(an, 15, hi);
    let cm = fewest_escapes(an, 15, 24);
    let mob = mobility(an, opp);
    let m2 = moment2(an);
    let el = enter_loss(an, opp);
    let closed = count_made(opp);
    let t = timing(an, if nob > 0 {
        nob as usize
    } else {
        0
    });
    let (bw, bt) = backbone(an);
    let (ba, btot) = back_game(an);
    HalfCounts {
        break_contact: bc,
        free_pips: fp,
        back_chequer: n_back as u32,
        back_anchor: anchor as u32,
        forward_anchor: fa,
        hit_rolls,
        multi_hit_rolls: multi,
        pip_loss,
        back_escapes: be,
        back_rescapes: br,
        acontain_min: acm,
        contain_min: cm,
        mobility: mob,
        moment2: m2,
        enter_loss: el,
        closed,
        timing: t,
        backbone_weight: bw,
        backbone_total: bt,
        back_anchors: ba,
        back_total: btot,
    }
}

/// The opponent's blots (points holding exactly one checker) below `n`.
pub open spec fn blot_count(opp: [u32; 25], n: int) -> int
    decreases n,
{
    if n <= 0 {
        0
    } else {
        blot_count(opp, n - 1) + if opp[n - 1] == 1 {
            1int
        } else {
            0int
        }
    }
}

proof fn lemma_roll_hits_at_most_blots(
    an: [u32; 25],
    opp: [u32; 25],
    inner: int,
    d0: int,
    d1: int,
    n: int,
)
    ensures
        0 <= roll_hits(an, opp, inner, d0, d1, n) <= blot_count(opp, n),
    decreases n,
{
    if n > 0 {
        lemma_roll_hits_at_most_blots(an, opp, inner, d0, d1, n - 1);
    }
}

proof fn lemma_tally_bounds(an: [u32; 25], opp: [u32; 25], k: int)
    requires
        0 <= k,
    ensures
        0 <= hit_tally(an, opp, k).1 <= hit_tally(an, opp, k).0 <= k,
        blot_count(opp, 24) <= 1 ==> hit_tally(an, opp, k).1 == 0,
    decreases k,
{
    if k > 0 {
        lemma_tally_bounds(an, opp, k - 1);
        lemma_roll_hits_at_most_blots(
            an,
            opp,
            made_points(an, 6),
            (k - 1) / 6 + 1,
            (k - 1) % 6 + 1,
            24,
        );
    }
}

/// The hit counts of the 36 rolls: a roll counts as a double hit only if
/// it hits two blots, so there are none when the opponent has at most one
/// blot, and never more double-hitting rolls than hitting rolls, nor more
/// hitting rolls than 36.
pub proof fn lemma_hit_counts(an: [u32; 25], opp: [u32; 25])
    ensures
        half_counts_spec(an, opp).multi_hit_rolls <= half_counts_spec(an, opp).hit_rolls <= 36,
        blot_count(opp, 24) <= 1 ==> half_counts_spec(an, opp).multi_hit_rolls == 0,
{
    lemma_tally_bounds(an, opp, 36);
}

} // verus!
