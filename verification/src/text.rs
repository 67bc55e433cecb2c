//! Small helpers for ASCII text.
use vstd::prelude::*;

verus! {

/// The characters of an ASCII byte sequence.
pub open spec fn ascii_chars(bytes: Seq<u8>) -> Seq<char> {
    Seq::new(bytes.len(), |i: int| bytes[i] as char)
}

/// True when every byte is ASCII.
pub open spec fn all_ascii(bytes: Seq<u8>) -> bool {
    forall|i: int| 0 <= i < bytes.len() ==> bytes[i] < 128
}

/// Builds a `String` from ASCII bytes, each byte becoming the character
/// with the same code.
pub(crate) fn ascii_to_string(bytes: Vec<u8>) -> (s: String)
    requires
        all_ascii(bytes@),
    ensures
        s@ == ascii_chars(bytes@),
{
    let mut chars: Vec<char> = Vec::with_capacity(bytes.len());
    let mut i: usize = 0;
    while i < bytes.len()
        invariant
            i <= bytes.len(),
            chars@ == ascii_chars(bytes@.take(i as int)),
        decreases bytes.len() - i,
    {
        let b: u8 = bytes[i];
        chars.push(b as char);
        i = i + 1;
        assert(chars@ =~= ascii_chars(bytes@.take(i as int)));
    }
    assert(bytes@.take(i as int) =~= bytes@);
    chars_to_string(chars)
}

/// Builds a `String` from characters with `String::from_iter`.
///
/// Trusted: std documents that a `String` collected from characters holds
/// them in order, so the string's characters are exactly those given.
#[verifier::external_body]
pub(crate) fn chars_to_string(chars: Vec<char>) -> (s: String)
    ensures
        s@ == chars@,
{
    String::from_iter(chars)
}

/// Unicode white space, as `char::is_whitespace` reports it.
pub open spec fn is_ws(c: char) -> bool {
    let u = c as u32;
    (9 <= u <= 13) || u == 32 || u == 0x85 || u == 0xa0 || u == 0x1680 || (0x2000 <= u <= 0x200a)
        || u == 0x2028 || u == 0x2029 || u == 0x202f || u == 0x205f || u == 0x3000
}

pub fn white(c: char) -> (w: bool)
    ensures
        w == is_ws(c),
{
    let u = c as u32;
    (9 <= u && u <= 13) || u == 32 || u == 0x85 || u == 0xa0 || u == 0x1680 || (0x2000 <= u && u
        <= 0x200a) || u == 0x2028 || u == 0x2029 || u == 0x202f || u == 0x205f || u == 0x3000
}

/// The characters of a string slice, in order.
pub(crate) fn str_chars(s: &str) -> (v: Vec<char>)
    ensures
        v@ == s@,
{
    broadcast use vstd::string::axiom_spec_iter, vstd::string::next_postcondition;

    let mut v: Vec<char> = Vec::new();
    for c in it: s.chars()
        invariant
            v@ == it.seq().take(it.index() as int),
    {
        v.push(c);
    }
    v
}

/// The decimal digits of `n`, most significant first, as ASCII bytes.
pub open spec fn decimal(n: nat) -> Seq<u8>
    decreases n,
{
    if n < 10 {
        seq![(48 + n) as u8]
    } else {
        decimal(n / 10).push((48 + n % 10) as u8)
    }
}

proof fn lemma_decimal_ascii(n: nat)
    ensures
        all_ascii(decimal(n)),
        decimal(n).len() >= 1,
    decreases n,
{
    if n >= 10 {
        lemma_decimal_ascii(n / 10);
    }
}

/// Append the decimal digits of `n` to `out`.
pub fn push_decimal(out: &mut Vec<u8>, n: u64)
    ensures
        final(out)@ == old(out)@ + decimal(n as nat),
    decreases n,
{
    if n < 10 {
        out.push(48 + n as u8);
        proof {
            assert(decimal(n as nat) =~= seq![(48 + n) as u8]);
        }
    } else {
        push_decimal(out, n / 10);
        out.push(48 + (n % 10) as u8);
        proof {
            assert(decimal(n as nat) == decimal((n / 10) as nat).push((48 + n % 10) as u8));
        }
    }
}

/// The decimal text of `n`.
pub fn decimal_text(n: u64) -> (s: String)
    ensures
        s@ == ascii_chars(decimal(n as nat)),
{
    let mut out: Vec<u8> = Vec::new();
    push_decimal(&mut out, n);
    proof {
        assert(out@ =~= decimal(n as nat));
        lemma_decimal_ascii(n as nat);
    }
    ascii_to_string(out)
}

/// Every decimal text is ASCII.
pub proof fn lemma_decimal_is_ascii(n: nat)
    ensures
        all_ascii(decimal(n)),
{
    lemma_decimal_ascii(n);
}

/// The characters of a text made of ASCII bytes.
pub proof fn lemma_ascii_concat(a: Seq<u8>, b: Seq<u8>)
    ensures
        ascii_chars(a + b) == ascii_chars(a) + ascii_chars(b),
        all_ascii(a) && all_ascii(b) ==> all_ascii(a + b),
{
    assert(ascii_chars(a + b) =~= ascii_chars(a) + ascii_chars(b));
}

} // verus!
