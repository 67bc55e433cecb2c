//! The weights file of the neural networks: its lines, headers and
//! layout. Reading the floating-point numbers themselves is left to the
//! caller; everything else about the file is checked here.
use vstd::prelude::*;
use vstd::string::StringExecFns;
use crate::text::{ascii_chars, chars_to_string, decimal, decimal_text, is_ws, str_chars, white};

verus! {

/// The end of the line that starts at `i`: the next `\n`, or the end.
pub open spec fn line_end(s: Seq<char>, i: int) -> int
    decreases s.len() - i,
{
    if i >= s.len() {
        s.len() as int
    } else if s[i] == '\n' {
        i
    } else {
        line_end(s, i + 1)
    }
}

/// A line ends at or after its start, and within the text.
pub proof fn lemma_line_end(s: Seq<char>, i: int)
    requires
        0 <= i,
    ensures
        i <= line_end(s, i) || i > s.len(),
        line_end(s, i) <= s.len() || i > s.len(),
        i <= s.len() ==> i <= line_end(s, i) <= s.len(),
    decreases s.len() - i,
{
    if i < s.len() && s[i] != '\n' {
        lemma_line_end(s, i + 1);
    }
}

/// `l` without its leading white space.
pub open spec fn trim_start(l: Seq<char>) -> Seq<char>
    decreases l.len(),
{
    if l.len() > 0 && is_ws(l[0]) {
        trim_start(l.drop_first())
    } else {
        l
    }
}

/// `l` without its trailing white space.
pub open spec fn trim_end(l: Seq<char>) -> Seq<char>
    decreases l.len(),
{
    if l.len() > 0 && is_ws(l.last()) {
        trim_end(l.drop_last())
    } else {
        l
    }
}

/// `l` without white space at either end, as `str::trim` gives it.
pub open spec fn trim(l: Seq<char>) -> Seq<char> {
    trim_end(trim_start(l))
}

/// The non-empty trimmed lines of `s` from position `i` on.
pub open spec fn content_from(s: Seq<char>, i: int) -> Seq<Seq<char>>
    decreases s.len() + 1 - i,
{
    if i < 0 || i > s.len() {
        Seq::empty()
    } else {
        let e = line_end(s, i);
        let t = trim(s.subrange(i, e));
        proof {
            lemma_line_end(s, i);
        }
        (if t.len() > 0 {
            seq![t]
        } else {
            Seq::empty()
        }) + content_from(s, e + 1)
    }
}

/// The lines of a text, trimmed, empty ones left out.
pub open spec fn content_lines(s: Seq<char>) -> Seq<Seq<char>> {
    content_from(s, 0)
}

proof fn lemma_trim_start_sub(s: Seq<char>, i: int, a: int, e: int)
    requires
        0 <= i <= a <= e <= s.len(),
        forall|j: int| i <= j < a ==> is_ws(#[trigger] s[j]),
        a == e || !is_ws(s[a]),
    ensures
        trim_start(s.subrange(i, e)) == s.subrange(a, e),
    decreases a - i,
{
    if i < a {
        assert(s.subrange(i, e).drop_first() =~= s.subrange(i + 1, e));
        lemma_trim_start_sub(s, i + 1, a, e);
    } else if a < e {
        assert(s.subrange(i, e)[0] == s[a]);
    }
}

proof fn lemma_trim_end_sub(s: Seq<char>, a: int, b: int, e: int)
    requires
        0 <= a <= b <= e <= s.len(),
        forall|j: int| b <= j < e ==> is_ws(#[trigger] s[j]),
        b == a || !is_ws(s[b - 1]),
    ensures
        trim_end(s.subrange(a, e)) == s.subrange(a, b),
    decreases e - b,
{
    if b < e {
        assert(s.subrange(a, e).drop_last() =~= s.subrange(a, e - 1));
        assert(s.subrange(a, e).last() == s[e - 1]);
        lemma_trim_end_sub(s, a, b, e - 1);
    } else if a < b {
        assert(s.subrange(a, e).last() == s[b - 1]);
    }
}

fn copy_range(s: &Vec<char>, a: usize, b: usize) -> (r: Vec<char>)
    requires
        a <= b <= s@.len(),
    ensures
        r@ == s@.subrange(a as int, b as int),
{
    let mut r: Vec<char> = Vec::new();
    let mut k = a;
    while k < b
        invariant
            a <= k <= b <= s@.len(),
            r@ == s@.subrange(a as int, k as int),
        decreases b - k,
    {
        r.push(s[k]);
        proof {
            assert(s@.subrange(a as int, k + 1) =~= s@.subrange(a as int, k as int).push(s@[k as int]));
        }
        k = k + 1;
    }
    r
}

/// The line from `i` to `e`, trimmed.
pub(crate) fn trimmed(s: &Vec<char>, i: usize, e: usize) -> (r: Vec<char>)
    requires
        i <= e <= s@.len(),
    ensures
        r@ == trim(s@.subrange(i as int, e as int)),
{
    let mut a = i;
    while a < e && white(s[a])
        invariant
            i <= a <= e <= s@.len(),
            forall|j: int| i <= j < a ==> is_ws(#[trigger] s@[j]),
        decreases e - a,
    {
        a = a + 1;
    }
    let mut b = e;
    while b > a && white(s[b - 1])
        invariant
            a <= b <= e <= s@.len(),
            forall|j: int| b <= j < e ==> is_ws(#[trigger] s@[j]),
        decreases b,
    {
        b = b - 1;
    }
    proof {
        lemma_trim_start_sub(s@, i as int, a as int, e as int);
        lemma_trim_end_sub(s@, a as int, b as int, e as int);
    }
    copy_range(s, a, b)
}

/// The non-empty trimmed lines of a text.
pub fn lines_of(s: &Vec<char>) -> (r: Vec<Vec<char>>)
    ensures
        r@.len() == content_lines(s@).len(),
        forall|j: int| 0 <= j < r@.len() ==> (#[trigger] r@[j])@ == content_lines(s@)[j],
{
    let n = s.len();
    let mut out: Vec<Vec<char>> = Vec::new();
    let ghost mut outs: Seq<Seq<char>> = Seq::empty();
    let mut i: usize = 0;
    let mut done = false;
    while !done
        invariant
            n == s@.len(),
            i <= n,
            out@.len() == outs.len(),
            forall|j: int| 0 <= j < out@.len() ==> (#[trigger] out@[j])@ == outs[j],
            !done ==> outs + content_from(s@, i as int) == content_lines(s@),
            done ==> outs == content_lines(s@),
        decreases (if done { 0 } else { n + 1 - i }),
    {
        let mut e = i;
        while e < n && s[e] != '\n'
            invariant
                i <= e <= n,
                n == s@.len(),
                line_end(s@, i as int) == line_end(s@, e as int),
            decreases n - e,
        {
            e = e + 1;
        }
        let t = trimmed(s, i, e);
        proof {
            lemma_line_end(s@, i as int);
            assert(line_end(s@, i as int) == e);
        }
        let ghost t_view = t@;
        if t.len() > 0 {
            out.push(t);
            proof {
                outs = outs.push(t_view);
            }
        }
        proof {
            assert(content_from(s@, i as int) == (if t_view.len() > 0 {
                seq![t_view]
            } else {
                Seq::<Seq<char>>::empty()
            }) + content_from(s@, e + 1));
        }
        if e == n {
            done = true;
            proof {
                assert(content_from(s@, e + 1) =~= Seq::<Seq<char>>::empty());
                assert(outs =~= content_lines(s@));
            }
        } else {
            i = e + 1;
            proof {
                assert(outs + content_from(s@, i as int) =~= content_lines(s@));
            }
        }
    }
    out
}

/// The first position at or after `i` that is not white space.
pub open spec fn skip_ws(l: Seq<char>, i: int) -> int
    decreases l.len() - i,
{
    if i >= l.len() {
        l.len() as int
    } else if is_ws(l[i]) {
        skip_ws(l, i + 1)
    } else {
        i
    }
}

/// The end of the word that starts at `j`.
pub open spec fn word_end(l: Seq<char>, j: int) -> int
    decreases l.len() - j,
{
    if j >= l.len() {
        l.len() as int
    } else if is_ws(l[j]) {
        j
    } else {
        word_end(l, j + 1)
    }
}

/// Where the scans stop: within the text, not before their start.
pub proof fn lemma_scan_bounds(l: Seq<char>, i: int)
    requires
        0 <= i <= l.len(),
    ensures
        i <= skip_ws(l, i) <= l.len(),
        i <= word_end(l, i) <= l.len(),
        skip_ws(l, i) < l.len() ==> !is_ws(l[skip_ws(l, i)]),
        word_end(l, i) < l.len() ==> is_ws(l[word_end(l, i)]),
    decreases l.len() - i,
{
    if i < l.len() {
        lemma_scan_bounds(l, i + 1);
    }
}

/// The white-space separated words of `l` from position `i` on.
pub open spec fn words_from(l: Seq<char>, i: int) -> Seq<Seq<char>>
    decreases l.len() - i,
{
    if i < 0 || i >= l.len() {
        Seq::empty()
    } else {
        let j = skip_ws(l, i);
        proof {
            lemma_scan_bounds(l, i);
        }
        if j >= l.len() {
            Seq::empty()
        } else {
            let k = word_end(l, j);
            proof {
                lemma_scan_bounds(l, j);
            }
            seq![l.subrange(j, k)] + words_from(l, k)
        }
    }
}

/// The white-space separated words of a line, as `split_whitespace` gives
/// them.
pub open spec fn words(l: Seq<char>) -> Seq<Seq<char>> {
    words_from(l, 0)
}

/// The words of a line.
pub fn split_words(l: &Vec<char>) -> (r: Vec<Vec<char>>)
    ensures
        r@.len() == words(l@).len(),
        forall|j: int| 0 <= j < r@.len() ==> (#[trigger] r@[j])@ == words(l@)[j],
{
    let n = l.len();
    let mut out: Vec<Vec<char>> = Vec::new();
    let ghost mut outs: Seq<Seq<char>> = Seq::empty();
    let mut i: usize = 0;
    while i < n
        invariant
            n == l@.len(),
            i <= n,
            out@.len() == outs.len(),
            forall|j: int| 0 <= j < out@.len() ==> (#[trigger] out@[j])@ == outs[j],
            outs + words_from(l@, i as int) == words(l@),
        decreases n - i,
    {
        let mut j = i;
        while j < n && white(l[j])
            invariant
                i <= j <= n,
                n == l@.len(),
                skip_ws(l@, i as int) == skip_ws(l@, j as int),
            decreases n - j,
        {
            j = j + 1;
        }
        if j == n {
            proof {
                assert(words_from(l@, i as int) =~= Seq::<Seq<char>>::empty());
                assert(outs =~= words(l@));
            }
            i = n;
            proof {
                assert(outs + words_from(l@, i as int) =~= words(l@));
            }
        } else {
            let mut k = j;
            while k < n && !white(l[k])
                invariant
                    j <= k <= n,
                    n == l@.len(),
                    word_end(l@, j as int) == word_end(l@, k as int),
                decreases n - k,
            {
                k = k + 1;
            }
            let w = copy_range(l, j, k);
            proof {
                assert(skip_ws(l@, i as int) == j);
                assert(word_end(l@, j as int) == k);
                assert(words_from(l@, i as int) == seq![l@.subrange(j as int, k as int)] + words_from(
                    l@,
                    k as int,
                ));
                outs = outs.push(w@);
            }
            out.push(w);
            i = k;
            proof {
                assert(outs + words_from(l@, i as int) =~= words(l@));
            }
        }
    }
    proof {
        assert(words_from(l@, n as int) =~= Seq::<Seq<char>>::empty());
        assert(outs =~= words(l@));
    }
    out
}

/// The value of a run of decimal digit characters.
pub open spec fn digit_chars_value(t: Seq<char>) -> nat
    decreases t.len(),
{
    if t.len() == 0 {
        0
    } else {
        digit_chars_value(t.drop_last()) * 10 + ((t.last() as u32) - 48) as nat
    }
}

/// Every character is a decimal digit.
pub open spec fn all_digit_chars(t: Seq<char>) -> bool {
    forall|i: int| 0 <= i < t.len() ==> '0' <= #[trigger] t[i] && t[i] <= '9'
}

/// The `usize` a word spells, as `str::parse::<usize>` reads it: an
/// optional `+`, then one or more decimal digits.
pub open spec fn usize_text(t: Seq<char>) -> Option<usize> {
    let body = if t.len() > 0 && t[0] == '+' {
        t.drop_first()
    } else {
        t
    };
    if body.len() > 0 && all_digit_chars(body) && digit_chars_value(body) <= usize::MAX {
        Some(digit_chars_value(body) as usize)
    } else {
        None
    }
}

proof fn lemma_saturate(v: nat, d: nat, sat: nat)
    requires
        d < 10,
        sat > 0,
    ensures
        (if 10 * (if v < sat { v } else { sat }) + d < sat {
            10 * (if v < sat { v } else { sat }) + d
        } else {
            sat
        }) == (if 10 * v + d < sat {
            10 * v + d
        } else {
            sat
        }),
{
}

/// Read a `usize` word.
pub fn parse_usize(t: &Vec<char>) -> (r: Option<usize>)
    ensures
        r == usize_text(t@),
{
    let n = t.len();
    let mut i: usize = 0;
    if n > 0 && t[0] == '+' {
        i = 1;
    }
    let ghost body = t@.subrange(i as int, n as int);
    proof {
        if i == 1 {
            assert(body =~= t@.drop_first());
        } else {
            assert(body =~= t@);
        }
    }
    if i == n {
        return None;
    }
    let sat: u128 = usize::MAX as u128 + 1;
    let start = i;
    let mut acc: u128 = 0;
    while i < n
        invariant
            start <= i <= n,
            n == t@.len(),
            sat == usize::MAX + 1,
            body == t@.subrange(start as int, n as int),
            body == (if t@.len() > 0 && t@[0] == '+' { t@.drop_first() } else { t@ }),
            forall|j: int| start <= j < i ==> '0' <= #[trigger] t@[j] && t@[j] <= '9',
            acc == (if digit_chars_value(t@.subrange(start as int, i as int)) < sat {
                digit_chars_value(t@.subrange(start as int, i as int))
            } else {
                sat as nat
            }),
        decreases n - i,
    {
        let c = t[i];
        if c < '0' || c > '9' {
            proof {
                assert(body[i - start] == c);
                assert(!all_digit_chars(body));
            }
            return None;
        }
        let d = (c as u32 - 48) as u128;
        proof {
            let prev = t@.subrange(start as int, i as int);
            let next = t@.subrange(start as int, i + 1);
            assert(next.drop_last() =~= prev);
            assert(next.last() == c);
            lemma_saturate(digit_chars_value(prev), d as nat, sat as nat);
        }
        let grown = acc * 10 + d;
        acc = if grown < sat {
            grown
        } else {
            sat
        };
        i = i + 1;
    }
    proof {
        assert(t@.subrange(start as int, n as int) =~= body);
        assert forall|j: int| 0 <= j < body.len() implies '0' <= #[trigger] body[j] && body[j] <= '9' by {
            assert(body[j] == t@[start + j]);
        }
    }
    if acc >= sat {
        None
    } else {
        Some(acc as usize)
    }
}

/// Inputs of the contact network.
pub const CONTACT_INPUTS: usize = 250;

/// Inputs of the race network.
pub const RACE_INPUTS: usize = 214;

/// Inputs of the crashed network.
pub const CRASHED_INPUTS: usize = 250;

/// Outputs of every network.
pub const OUTPUTS: usize = 5;

/// What can be wrong with a weights file.
#[derive(Debug, PartialEq, Eq)]
pub enum WeightError {
    Empty,
    InvalidMagic(String),
    MissingHeader { network: usize },
    InvalidHeader { network: usize, line: String },
    InvalidDimension { network: usize, got: (usize, usize, usize) },
    InvalidFloat { network: usize, line: String },
    Truncated { network: usize, expected: usize, got: usize },
    NotEnoughNetworks { got: usize },
}

/// The decimal text of `n`, as characters.
pub open spec fn num(n: nat) -> Seq<char> {
    ascii_chars(decimal(n))
}

/// The message describing a weights error.
pub open spec fn weight_error_text(e: WeightError) -> Seq<char> {
    match e {
        WeightError::Empty => "empty weights file"@,
        WeightError::InvalidMagic(line) => "invalid weights magic header: "@ + line@,
        WeightError::MissingHeader { network } => "missing header for network "@ + num(network as nat),
        WeightError::InvalidHeader { network, line } => "invalid header for network "@ + num(
            network as nat,
        ) + ": "@ + line@,
        WeightError::InvalidDimension { network, got } => "unexpected dimensions for network "@
            + num(network as nat) + ": "@ + num(got.0 as nat) + " "@ + num(got.1 as nat) + " "@ + num(
            got.2 as nat,
        ),
        WeightError::InvalidFloat { network, line } => "invalid float in network "@ + num(
            network as nat,
        ) + ": "@ + line@,
        WeightError::Truncated { network, expected, got } => "truncated network "@ + num(
            network as nat,
        ) + ": expected "@ + num(expected as nat) + " floats, got "@ + num(got as nat),
        WeightError::NotEnoughNetworks { got } => "expected at least 3 networks, got "@ + num(
            got as nat,
        ),
    }
}

fn push_num(s: &mut String, n: usize)
    ensures
        final(s)@ == old(s)@ + num(n as nat),
{
    let t = decimal_text(n as u64);
    s.append(t.as_str());
}

impl WeightError {
    /// The message describing the error.
    pub fn message(&self) -> (s: String)
        ensures
            s@ == weight_error_text(*self),
    {
        match self {
            WeightError::Empty => String::from_str("empty weights file"),
            WeightError::InvalidMagic(line) => {
                let mut s = String::from_str("invalid weights magic header: ");
                s.append(line.as_str());
                s
            },
            WeightError::MissingHeader { network } => {
                let mut s = String::from_str("missing header for network ");
                push_num(&mut s, *network);
                s
            },
            WeightError::InvalidHeader { network, line } => {
                let mut s = String::from_str("invalid header for network ");
                push_num(&mut s, *network);
                s.append(": ");
                s.append(line.as_str());
                s
            },
            WeightError::InvalidDimension { network, got } => {
                let mut s = String::from_str("unexpected dimensions for network ");
                push_num(&mut s, *network);
                s.append(": ");
                push_num(&mut s, got.0);
                s.append(" ");
                push_num(&mut s, got.1);
                s.append(" ");
                push_num(&mut s, got.2);
                s
            },
            WeightError::InvalidFloat { network, line } => {
                let mut s = String::from_str("invalid float in network ");
                push_num(&mut s, *network);
                s.append(": ");
                s.append(line.as_str());
                s
            },
            WeightError::Truncated { network, expected, got } => {
                let mut s = String::from_str("truncated network ");
                push_num(&mut s, *network);
                s.append(": expected ");
                push_num(&mut s, *expected);
                s.append(" floats, got ");
                push_num(&mut s, *got);
                s
            },
            WeightError::NotEnoughNetworks { got } => {
                let mut s = String::from_str("expected at least 3 networks, got ");
                push_num(&mut s, *got);
                s
            },
        }
    }
}

/// The number of weights of a network: hidden weights and thresholds,
/// output weights and thresholds.
pub open spec fn expected_count(ci: int, ch: int, co: int) -> int {
    ci * ch + ch + ch * co + co
}

/// The number of weights of a network with these dimensions.
pub fn expected_float_count(c_input: usize, c_hidden: usize, c_output: usize) -> (n: usize)
    requires
        expected_count(c_input as int, c_hidden as int, c_output as int) <= usize::MAX,
    ensures
        n == expected_count(c_input as int, c_hidden as int, c_output as int),
{
    proof {
        assert(c_input * c_hidden >= 0 && c_hidden * c_output >= 0) by (nonlinear_arith);
    }
    c_input * c_hidden + c_hidden + c_hidden * c_output + c_output
}

/// Where the groups of a network's numbers end, as the file lays them out:
/// the input-to-hidden weights, then the hidden thresholds, then the
/// hidden-to-output weights; the output thresholds run to the end.
pub fn weight_ranges(c_input: usize, c_hidden: usize, c_output: usize) -> (r: (usize, usize, usize))
    requires
        expected_count(c_input as int, c_hidden as int, c_output as int) <= usize::MAX,
    ensures
        r.0 == c_input * c_hidden,
        r.1 == r.0 + c_hidden,
        r.2 == r.1 + c_hidden * c_output,
        r.2 + c_output == expected_count(c_input as int, c_hidden as int, c_output as int),
{
    proof {
        assert(c_input * c_hidden >= 0 && c_hidden * c_output >= 0) by (nonlinear_arith);
    }
    let hidden_end = c_input * c_hidden;
    let threshold_end = hidden_end + c_hidden;
    (hidden_end, threshold_end, threshold_end + c_hidden * c_output)
}

/// The dimensions the first three networks must have: contact, race,
/// crashed.
pub open spec fn expected_dims(k: int) -> (usize, usize, usize) {
    if k == 1 {
        (214, 128, 5)
    } else {
        (250, 128, 5)
    }
}

/// The four numbers of a network header: six words, the first four of them
/// `usize` numbers.
pub open spec fn header_numbers(h: Seq<char>) -> Option<(usize, usize, usize, usize)> {
    let w = words(h);
    if w.len() == 6 && usize_text(w[0]) is Some && usize_text(w[1]) is Some && usize_text(w[2]) is Some
        && usize_text(w[3]) is Some {
        Some(
            (
                usize_text(w[0]).unwrap(),
                usize_text(w[1]).unwrap(),
                usize_text(w[2]).unwrap(),
                usize_text(w[3]).unwrap(),
            ),
        )
    } else {
        None
    }
}

/// The weight count announced by the header line at `p`.
pub open spec fn count_at(lines: Seq<Seq<char>>, p: int) -> int {
    let d = header_numbers(lines[p]).unwrap();
    expected_count(d.0 as int, d.1 as int, d.2 as int)
}

/// The line where network `k` starts: after the magic line, each network
/// takes its header and its weights.
pub open spec fn net_pos(lines: Seq<Seq<char>>, k: nat) -> int
    decreases k,
{
    if k == 0 {
        1
    } else {
        let p = net_pos(lines, (k - 1) as nat);
        p + 1 + if header_numbers(lines[p]) is Some && count_at(lines, p) >= 0 {
            count_at(lines, p)
        } else {
            0
        }
    }
}

/// Network `k` is in the file whole: a valid header with the dimensions
/// its place demands, and all its weight lines.
pub open spec fn complete(lines: Seq<Seq<char>>, k: nat) -> bool {
    let p = net_pos(lines, k);
    &&& p < lines.len()
    &&& header_numbers(lines[p]) is Some
    &&& ({
        let d = header_numbers(lines[p]).unwrap();
        k >= 3 || (d.0, d.1, d.2) == expected_dims(k as int)
    })
    &&& count_at(lines, p) <= usize::MAX
    &&& p + 1 + count_at(lines, p) <= lines.len()
}

/// A weight count is never negative.
pub proof fn lemma_count_nonneg(lines: Seq<Seq<char>>, p: int)
    requires
        0 <= p < lines.len(),
        header_numbers(lines[p]) is Some,
    ensures
        count_at(lines, p) >= 0,
{
    let d = header_numbers(lines[p]).unwrap();
    assert(d.0 * d.1 >= 0 && d.1 * d.2 >= 0) by (nonlinear_arith);
}

/// Every network starts after the magic line.
pub proof fn lemma_net_pos(lines: Seq<Seq<char>>, k: nat)
    ensures
        net_pos(lines, k) >= 1,
    decreases k,
{
    if k > 0 {
        lemma_net_pos(lines, (k - 1) as nat);
    }
}

/// The number of whole networks from network `k` on, plus `k`.
pub open spec fn networks_in(lines: Seq<Seq<char>>, k: nat) -> nat
    decreases lines.len() - net_pos(lines, k),
{
    if complete(lines, k) {
        proof {
            lemma_net_pos(lines, k);
            lemma_count_nonneg(lines, net_pos(lines, k));
        }
        networks_in(lines, k + 1)
    } else {
        k
    }
}

/// How reading a weights file ends.
#[derive(Clone, Copy, Debug, PartialEq, Eq, Structural)]
pub enum StopKind {
    Done,
    Empty,
    BadMagic,
    NotEnough,
    BadHeader,
    BadDims,
    Short,
    Overflow,
}

/// The first line of a weights file.
pub open spec fn magic() -> Seq<char> {
    "GNU Backgammon 1.01"@
}

/// How reading the lines of a weights file ends.
pub open spec fn stop_kind(lines: Seq<Seq<char>>) -> StopKind {
    if lines.len() == 0 {
        StopKind::Empty
    } else if lines[0] != magic() {
        StopKind::BadMagic
    } else {
        let k = networks_in(lines, 0);
        let p = net_pos(lines, k);
        if p >= lines.len() {
            if k < 3 {
                StopKind::NotEnough
            } else {
                StopKind::Done
            }
        } else if header_numbers(lines[p]) is None {
            StopKind::BadHeader
        } else if !(k >= 3 || ({
            let d = header_numbers(lines[p]).unwrap();
            (d.0, d.1, d.2) == expected_dims(k as int)
        })) {
            StopKind::BadDims
        } else if count_at(lines, p) > usize::MAX {
            StopKind::Overflow
        } else {
            StopKind::Short
        }
    }
}

/// One network as the file lays it out: its header line and numbers, the
/// texts of its two scale factors, and the texts of its weights.
#[derive(Clone, Debug)]
pub struct NetworkFrame {
    pub header: String,
    pub c_input: usize,
    pub c_hidden: usize,
    pub c_output: usize,
    pub n_trained: usize,
    pub beta_hidden: String,
    pub beta_output: String,
    pub floats: Vec<String>,
}

/// The networks of a weights file as laid out, and what stopped the
/// reading, if anything did.
#[derive(Debug)]
pub struct WeightsFrame {
    pub networks: Vec<NetworkFrame>,
    pub stop: Option<WeightError>,
}

/// `f` is network `k` of the lines, with its first `n` weight lines.
#[verifier::opaque]
pub open spec fn frame_matches(lines: Seq<Seq<char>>, k: nat, f: NetworkFrame, n: int) -> bool {
    let p = net_pos(lines, k);
    let h = lines[p];
    let d = header_numbers(h).unwrap();
    &&& f.header@ == h
    &&& (f.c_input, f.c_hidden, f.c_output, f.n_trained) == d
    &&& f.beta_hidden@ == words(h)[4]
    &&& f.beta_output@ == words(h)[5]
    &&& f.floats@.len() == n
    &&& forall|i: int| 0 <= i < n ==> (#[trigger] f.floats@[i])@ == lines[p + 1 + i]
}

fn same_chars(a: &Vec<char>, b: &Vec<char>) -> (r: bool)
    ensures
        r == (a@ == b@),
{
    if a.len() != b.len() {
        return false;
    }
    let mut i: usize = 0;
    while i < a.len()
        invariant
            i <= a@.len(),
            a@.len() == b@.len(),
            forall|j: int| 0 <= j < i ==> a@[j] == b@[j],
        decreases a@.len() - i,
    {
        if a[i] != b[i] {
            return false;
        }
        i = i + 1;
    }
    proof {
        assert(a@ =~= b@);
    }
    true
}

fn text_of(v: &Vec<char>) -> (s: String)
    ensures
        s@ == v@,
{
    proof {
        assert(v@.subrange(0, v@.len() as int) =~= v@);
    }
    chars_to_string(copy_range(v, 0, v.len()))
}

/// Read a header line: its words, and the four numbers when it has six
/// words and the first four read as `usize`.
fn read_header(h: &Vec<char>) -> (r: (Vec<Vec<char>>, Option<(usize, usize, usize, usize)>))
    ensures
        r.0@.len() == words(h@).len(),
        forall|j: int| 0 <= j < r.0@.len() ==> (#[trigger] r.0@[j])@ == words(h@)[j],
        r.1 == header_numbers(h@),
{
    let w = split_words(h);
    if w.len() != 6 {
        return (w, None);
    }
    let a = parse_usize(&w[0]);
    let b = parse_usize(&w[1]);
    let c = parse_usize(&w[2]);
    let d = parse_usize(&w[3]);
    match (a, b, c, d) {
        (Some(a), Some(b), Some(c), Some(d)) => (w, Some((a, b, c, d))),
        _ => (w, None),
    }
}

/// The weight count of a network, or `None` when it does not fit a `usize`.
fn checked_count(ci: usize, ch: usize, co: usize) -> (r: Option<usize>)
    ensures
        r is None <==> expected_count(ci as int, ch as int, co as int) > usize::MAX,
        r matches Some(n) ==> n == expected_count(ci as int, ch as int, co as int),
{
    proof {
        assert(ci * ch >= 0 && ch * co >= 0) by (nonlinear_arith);
        assert(ci * ch <= 0xffff_ffff_ffff_ffff * 0xffff_ffff_ffff_ffff && ch * co
            <= 0xffff_ffff_ffff_ffff * 0xffff_ffff_ffff_ffff) by (nonlinear_arith)
            requires
                ci <= 0xffff_ffff_ffff_ffffint,
                ch <= 0xffff_ffff_ffff_ffffint,
                co <= 0xffff_ffff_ffff_ffffint,
        ;
    }
    let a = ci as u128 * ch as u128;
    let b = ch as u128 * co as u128;
    if a > usize::MAX as u128 || b > usize::MAX as u128 {
        return None;
    }
    let total = a + b + ch as u128 + co as u128;
    if total > usize::MAX as u128 {
        None
    } else {
        Some(total as usize)
    }
}

/// Network `k`, whose header is line `p`, with its first `n` weight lines.
fn make_frame(
    lines: &Vec<Vec<char>>,
    p: usize,
    w: &Vec<Vec<char>>,
    d: (usize, usize, usize, usize),
    n: usize,
) -> (f: NetworkFrame)
    requires
        p + 1 + n <= lines@.len(),
        w@.len() == 6,
    ensures
        f.header@ == lines@[p as int]@,
        (f.c_input, f.c_hidden, f.c_output, f.n_trained) == d,
        f.beta_hidden@ == w@[4]@,
        f.beta_output@ == w@[5]@,
        f.floats@.len() == n,
        forall|i: int| 0 <= i < n ==> (#[trigger] f.floats@[i])@ == lines@[p + 1 + i]@,
{
    let mut floats: Vec<String> = Vec::new();
    let mut i: usize = 0;
    let len = lines.len();
    while i < n
        invariant
            i <= n,
            len == lines@.len(),
            p + 1 + n <= lines@.len(),
            floats@.len() == i,
            forall|j: int| 0 <= j < i ==> (#[trigger] floats@[j])@ == lines@[p + 1 + j]@,
        decreases n - i,
    {
        floats.push(text_of(&lines[p + 1 + i]));
        i = i + 1;
    }
    NetworkFrame {
        header: text_of(&lines[p]),
        c_input: d.0,
        c_hidden: d.1,
        c_output: d.2,
        n_trained: d.3,
        beta_hidden: text_of(&w[4]),
        beta_output: text_of(&w[5]),
        floats,
    }
}

proof fn lemma_made_frame(
    ls: Seq<Seq<char>>,
    lines: Seq<Vec<char>>,
    k: nat,
    p: int,
    w: Seq<Vec<char>>,
    d: (usize, usize, usize, usize),
    n: int,
    f: NetworkFrame,
)
    requires
        lines.len() == ls.len(),
        forall|j: int| 0 <= j < lines.len() ==> (#[trigger] lines[j])@ == ls[j],
        0 <= p,
        p + 1 + n <= ls.len(),
        p == net_pos(ls, k),
        header_numbers(ls[p]) == Some(d),
        w.len() == words(ls[p]).len(),
        forall|j: int| 0 <= j < w.len() ==> (#[trigger] w[j])@ == words(ls[p])[j],
        w.len() == 6,
        f.header@ == lines[p]@,
        (f.c_input, f.c_hidden, f.c_output, f.n_trained) == d,
        f.beta_hidden@ == w[4]@,
        f.beta_output@ == w[5]@,
        f.floats@.len() == n,
        forall|i: int| 0 <= i < n ==> (#[trigger] f.floats@[i])@ == lines[p + 1 + i]@,
    ensures
        frame_matches(ls, k, f, n),
{
    reveal(frame_matches);
    assert forall|i: int| 0 <= i < n implies (#[trigger] f.floats@[i])@ == ls[p + 1 + i] by {
        assert(lines[p + 1 + i]@ == ls[p + 1 + i]);
    }
}

/// Lay out a weights file: check its magic line, then read network after
/// network (header, dimensions, weight lines) until the lines run out or
/// something is wrong. The texts of the scale factors and weights are
/// handed back to be read as numbers; `None` when a network announces more
/// weights than a `usize` can count.
pub fn frame_weights(data: &str) -> (r: Option<WeightsFrame>)
    ensures
        ({
            let ls = content_lines(data@);
            let kind = stop_kind(ls);
            let k = networks_in(ls, 0);
            let p = net_pos(ls, k);
            &&& r is None <==> kind == StopKind::Overflow
            &&& r matches Some(w) ==> {
                &&& forall|j: int|
                    0 <= j < k && j < w.networks@.len() ==> frame_matches(
                        ls,
                        j as nat,
                        #[trigger] w.networks@[j],
                        count_at(ls, net_pos(ls, j as nat)),
                    )
                &&& match kind {
                    StopKind::Done => w.networks@.len() == k && w.stop is None,
                    StopKind::Empty => w.networks@.len() == 0 && w.stop == Some(WeightError::Empty),
                    StopKind::BadMagic => w.networks@.len() == 0 && (w.stop matches Some(
                        WeightError::InvalidMagic(m),
                    ) && m@ == ls[0]),
                    StopKind::NotEnough => w.networks@.len() == k && w.stop == Some(
                        WeightError::NotEnoughNetworks { got: k as usize },
                    ),
                    StopKind::BadHeader => w.networks@.len() == k && (w.stop matches Some(
                        WeightError::InvalidHeader { network, line },
                    ) && network == k && line@ == ls[p]),
                    StopKind::BadDims => {
                        let d = header_numbers(ls[p]).unwrap();
                        &&& w.networks@.len() == k + 1
                        &&& frame_matches(ls, k, w.networks@[k as int], 0)
                        &&& w.stop == Some(
                            WeightError::InvalidDimension { network: k as usize, got: (d.0, d.1, d.2) },
                        )
                    },
                    StopKind::Short => {
                        &&& w.networks@.len() == k + 1
                        &&& frame_matches(ls, k, w.networks@[k as int], ls.len() - p - 1)
                        &&& w.stop == Some(
                            WeightError::Truncated {
                                network: k as usize,
                                expected: count_at(ls, p) as usize,
                                got: (ls.len() - p - 1) as usize,
                            },
                        )
                    },
                    StopKind::Overflow => false,
                }
            }
        }),
{
    let chars = str_chars(data);
    let lines = lines_of(&chars);
    let ghost ls = content_lines(data@);
    proof {
        assert(chars@ == data@);
    }
    if lines.len() == 0 {
        return Some(WeightsFrame { networks: Vec::new(), stop: Some(WeightError::Empty) });
    }
    let magic_chars = str_chars("GNU Backgammon 1.01");
    if !same_chars(&lines[0], &magic_chars) {
        return Some(
            WeightsFrame {
                networks: Vec::new(),
                stop: Some(WeightError::InvalidMagic(text_of(&lines[0]))),
            },
        );
    }
    let mut networks: Vec<NetworkFrame> = Vec::new();
    let mut pos: usize = 1;
    let mut k: usize = 0;
    while pos < lines.len()
        invariant
            ls == content_lines(data@),
            lines@.len() == ls.len(),
            forall|j: int| 0 <= j < lines@.len() ==> (#[trigger] lines@[j])@ == ls[j],
            ls.len() > 0,
            ls[0] == magic(),
            pos == net_pos(ls, k as nat),
            k < pos,
            networks@.len() == k,
            networks_in(ls, 0) == networks_in(ls, k as nat),
            forall|j: int|
                0 <= j < k ==> frame_matches(
                    ls,
                    j as nat,
                    #[trigger] networks@[j],
                    count_at(ls, net_pos(ls, j as nat)),
                ),
        decreases lines@.len() - pos,
    {
        let (w, numbers) = read_header(&lines[pos]);
        match numbers {
            None => {
                proof {
                    assert(!complete(ls, k as nat));
                }
                return Some(
                    WeightsFrame {
                        networks,
                        stop: Some(WeightError::InvalidHeader { network: k, line: text_of(&lines[pos]) }),
                    },
                );
            },
            Some((ci, ch, co, nt)) => {
                let fits = if k == 1 {
                    ci == 214 && ch == 128 && co == 5
                } else if k < 3 {
                    ci == 250 && ch == 128 && co == 5
                } else {
                    true
                };
                if !fits {
                    let f = make_frame(&lines, pos, &w, (ci, ch, co, nt), 0);
                    proof {
                        lemma_made_frame(ls, lines@, k as nat, pos as int, w@, (ci, ch, co, nt), 0, f);
                    }
                    networks.push(f);
                    proof {
                        assert(!complete(ls, k as nat));
                    }
                    return Some(
                        WeightsFrame {
                            networks,
                            stop: Some(WeightError::InvalidDimension { network: k, got: (ci, ch, co) }),
                        },
                    );
                }
                match checked_count(ci, ch, co) {
                    None => {
                        proof {
                            assert(!complete(ls, k as nat));
                        }
                        return None;
                    },
                    Some(e) => {
                        let avail = lines.len() - pos - 1;
                        if e > avail {
                            let f = make_frame(&lines, pos, &w, (ci, ch, co, nt), avail);
                            proof {
                                lemma_made_frame(
                                    ls,
                                    lines@,
                                    k as nat,
                                    pos as int,
                                    w@,
                                    (ci, ch, co, nt),
                                    avail as int,
                                    f,
                                );
                            }
                            networks.push(f);
                            proof {
                                assert(!complete(ls, k as nat));
                            }
                            return Some(
                                WeightsFrame {
                                    networks,
                                    stop: Some(WeightError::Truncated { network: k, expected: e, got: avail }),
                                },
                            );
                        }
                        let f = make_frame(&lines, pos, &w, (ci, ch, co, nt), e);
                        proof {
                            lemma_made_frame(
                                ls,
                                lines@,
                                k as nat,
                                pos as int,
                                w@,
                                (ci, ch, co, nt),
                                e as int,
                                f,
                            );
                        }
                        networks.push(f);
                        proof {
                            assert(complete(ls, k as nat));
                            lemma_count_nonneg(ls, pos as int);
                            assert(net_pos(ls, (k + 1) as nat) == pos + 1 + e);
                        }
                        pos = pos + 1 + e;
                        k = k + 1;
                    },
                }
            },
        }
    }
    proof {
        assert(!complete(ls, k as nat));
    }
    if k < 3 {
        Some(WeightsFrame { networks, stop: Some(WeightError::NotEnoughNetworks { got: k }) })
    } else {
        Some(WeightsFrame { networks, stop: None })
    }
}

} // verus!
