//! Text helpers: fields split on a separator byte, decimal numbers, and the
//! standard library's UTF-8 decoding and white-space trimming.

use vstd::prelude::*;
use vstd::slice::slice_subrange;

verus! {

/// An ASCII decimal digit.
pub open spec fn is_digit(b: u8) -> bool {
    48 <= b && b <= 57
}

/// A non-empty run of decimal digits.
pub open spec fn is_decimal(s: Seq<u8>) -> bool {
    s.len() > 0 && forall|i: int| 0 <= i < s.len() ==> is_digit(#[trigger] s[i])
}

/// The number that a run of decimal digits denotes.
pub open spec fn decimal_value(s: Seq<u8>) -> nat
    decreases s.len(),
{
    if s.len() == 0 {
        0
    } else {
        decimal_value(s.drop_last()) * 10 + (s.last() - 48) as nat
    }
}

/// `k` is the position of the first `b` in `s`.
pub open spec fn first_at(s: Seq<u8>, b: u8, k: int) -> bool {
    0 <= k < s.len() && s[k] == b && forall|j: int| 0 <= j < k ==> s[j] != b
}

pub open spec fn has_byte(s: Seq<u8>, b: u8) -> bool {
    exists|k: int| first_at(s, b, k)
}

/// The field before the first separator `b` (all of `s` where there is none).
pub open spec fn before(s: Seq<u8>, b: u8) -> Seq<u8> {
    if has_byte(s, b) {
        s.subrange(0, choose|k: int| first_at(s, b, k))
    } else {
        s
    }
}

/// What follows the first separator `b` (empty where there is none).
pub open spec fn after(s: Seq<u8>, b: u8) -> Seq<u8> {
    if has_byte(s, b) {
        s.subrange((choose|k: int| first_at(s, b, k)) + 1, s.len() as int)
    } else {
        Seq::empty()
    }
}

/// The value of a run of digits `s`, where it is at most `max`.
pub open spec fn digits_at_most(s: Seq<u8>, max: nat) -> Option<nat> {
    if is_decimal(s) && decimal_value(s) <= max {
        Some(decimal_value(s))
    } else {
        None
    }
}

/// `s` without one leading plus sign, if it has one.
pub open spec fn unsigned_digits(s: Seq<u8>) -> Seq<u8> {
    if s.len() > 0 && s[0] == 43 {
        s.drop_first()
    } else {
        s
    }
}

/// The value of `s` read as an unsigned decimal number of at most `max`:
/// digits, optionally after one `+`, as Rust's unsigned integer parsing
/// reads them.
pub open spec fn decimal_at_most(s: Seq<u8>, max: nat) -> Option<nat> {
    digits_at_most(unsigned_digits(s), max)
}

/// The position of the first `b` in `s`.
pub fn find_byte(s: &[u8], b: u8) -> (r: Option<usize>)
    ensures
        match r {
            Some(k) => first_at(s@, b, k as int),
            None => forall|j: int| 0 <= j < s@.len() ==> s@[j] != b,
        },
        r is Some <==> has_byte(s@, b),
{
    let mut i: usize = 0;
    while i < s.len()
        invariant
            i <= s@.len(),
            forall|j: int| 0 <= j < i ==> s@[j] != b,
        decreases s.len() - i,
    {
        if s[i] == b {
            assert(first_at(s@, b, i as int));
            return Some(i);
        }
        i = i + 1;
    }
    assert(!has_byte(s@, b));
    None
}

/// Splits `s` at its first `b`: the field before it and the rest after it.
pub fn split_once(s: &[u8], b: u8) -> (r: Option<(&[u8], &[u8])>)
    ensures
        r is Some <==> has_byte(s@, b),
        r matches Some((x, y)) ==> x@ == before(s@, b) && y@ == after(s@, b),
{
    match find_byte(s, b) {
        Some(k) => {
            assert(first_at(s@, b, k as int));
            assert(k < s.len());
            let ghost c = choose|c: int| first_at(s@, b, c);
            assert(c == k as int) by {
                if c < k as int {
                    assert(s@[c] != b);
                } else if c > k as int {
                    assert(s@[k as int] != b);
                }
            }
            Some((slice_subrange(s, 0, k), slice_subrange(s, k + 1, s.len())))
        },
        None => None,
    }
}

/// Reads `s` as an unsigned decimal number of at most `max`, with an
/// optional leading `+`.
pub fn parse_decimal(s: &[u8], max: u64) -> (r: Option<u64>)
    ensures
        match decimal_at_most(s@, max as nat) {
            Some(v) => r == Some(v as u64),
            None => r is None,
        },
{
    if s.len() > 0 && s[0] == 43 {
        let t = slice_subrange(s, 1, s.len());
        assert(t@ =~= s@.drop_first());
        parse_digits(t, max)
    } else {
        parse_digits(s, max)
    }
}

/// Reads a run of digits `s` as a number of at most `max`.
pub fn parse_digits(s: &[u8], max: u64) -> (r: Option<u64>)
    ensures
        match digits_at_most(s@, max as nat) {
            Some(v) => r == Some(v as u64),
            None => r is None,
        },
{
    if s.len() == 0 {
        return None;
    }
    let mut acc: u128 = 0;
    let mut big = false;
    let mut i: usize = 0;
    while i < s.len()
        invariant
            i <= s@.len(),
            forall|j: int| 0 <= j < i ==> is_digit(#[trigger] s@[j]),
            big ==> decimal_value(s@.subrange(0, i as int)) > max,
            !big ==> acc == decimal_value(s@.subrange(0, i as int)) && acc <= max,
        decreases s.len() - i,
    {
        let d = s[i];
        if d < 48 || d > 57 {
            assert(!is_digit(s@[i as int]));
            return None;
        }
        assert(s@.subrange(0, i + 1).drop_last() =~= s@.subrange(0, i as int));
        if !big {
            acc = acc * 10 + (d - 48) as u128;
            if acc > max as u128 {
                big = true;
            }
        }
        i = i + 1;
    }
    assert(s@.subrange(0, s@.len() as int) =~= s@);
    if big {
        None
    } else {
        Some(acc as u64)
    }
}

/// The decimal digits of `n`, without leading zeros.
pub open spec fn digits(n: nat) -> Seq<u8>
    decreases n,
{
    if n < 10 {
        seq![(48 + n) as u8]
    } else {
        digits(n / 10).push((48 + n % 10) as u8)
    }
}

/// The last `w` decimal digits of `n`, with leading zeros.
pub open spec fn padded_digits(n: nat, w: nat) -> Seq<u8>
    decreases w,
{
    if w == 0 {
        Seq::empty()
    } else {
        padded_digits(n / 10, (w - 1) as nat).push((48 + n % 10) as u8)
    }
}

pub open spec fn pow10(k: nat) -> nat
    decreases k,
{
    if k == 0 {
        1
    } else {
        10 * pow10((k - 1) as nat)
    }
}

/// The digits of `n` are a decimal run that denotes `n`.
pub proof fn lemma_digits(n: nat)
    ensures
        is_decimal(digits(n)),
        decimal_value(digits(n)) == n,
    decreases n,
{
    if n >= 10 {
        lemma_digits(n / 10);
        let d = digits(n);
        assert(d.drop_last() == digits(n / 10));
        vstd::arithmetic::div_mod::lemma_fundamental_div_mod(n as int, 10);
        assert(d.last() == (48 + n % 10) as u8);
        assert(decimal_value(d) == decimal_value(digits(n / 10)) * 10 + (n % 10));
        assert forall|i: int| 0 <= i < d.len() implies is_digit(#[trigger] d[i]) by {
            if i < d.len() - 1 {
                assert(d[i] == digits(n / 10)[i]);
            }
        }
    } else {
        let d = digits(n);
        assert(d.drop_last() =~= Seq::<u8>::empty());
        assert(decimal_value(Seq::<u8>::empty()) == 0);
        assert(d.last() == (48 + n) as u8);
        assert(decimal_value(d) == n);
    }
}

/// `w` padded digits of `n` are a run of `w` digits that denotes `n` modulo `10^w`.
pub proof fn lemma_padded_digits(n: nat, w: nat)
    ensures
        padded_digits(n, w).len() == w,
        forall|i: int| 0 <= i < w ==> is_digit(#[trigger] padded_digits(n, w)[i]),
        decimal_value(padded_digits(n, w)) == n % pow10(w),
    decreases w,
{
    if w > 0 {
        let w1 = (w - 1) as nat;
        lemma_padded_digits(n / 10, w1);
        let d = padded_digits(n, w);
        assert(d.drop_last() == padded_digits(n / 10, w1));
        assert forall|i: int| 0 <= i < w implies is_digit(#[trigger] d[i]) by {
            if i < w - 1 {
                assert(d[i] == padded_digits(n / 10, w1)[i]);
            }
        }
        lemma_pow10_monotone(0, w1);
        let p = pow10(w1);
        vstd::arithmetic::div_mod::lemma_fundamental_div_mod(n as int, 10);
        vstd::arithmetic::div_mod::lemma_fundamental_div_mod((n / 10) as int, p as int);
        vstd::arithmetic::div_mod::lemma_fundamental_div_mod(n as int, (10 * p) as int);
        let (q, r) = ((n / 10) as int, (n % 10) as int);
        let t = q % (p as int);
        let a = q / (p as int);
        let pp = p as int;
        let nn = n as int;
        assert(d.last() == (48 + n % 10) as u8);
        assert(decimal_value(d) == t * 10 + r);
        assert(nn == 10 * q + r);
        assert(q == pp * a + t);
        assert(nn == (10 * pp) * a + (t * 10 + r)) by (nonlinear_arith)
            requires nn == 10 * q + r, q == pp * a + t;
        assert(0 <= t * 10 + r < 10 * pp) by (nonlinear_arith)
            requires 0 <= t < pp, 0 <= r < 10;
        vstd::arithmetic::div_mod::lemma_fundamental_div_mod_converse(nn, 10 * pp, a, t * 10 + r);
    }
}

/// The decimal digits of `n`, without leading zeros.
pub fn decimal_text(n: u128) -> (r: Vec<u8>)
    ensures
        r@ == digits(n as nat),
    decreases n,
{
    let d = (n % 10) as u8 + 48;
    let mut r = if n < 10 {
        Vec::new()
    } else {
        decimal_text(n / 10)
    };
    r.push(d);
    proof {
        if n < 10 {
            assert(r@ =~= seq![(48 + n) as u8]);
        }
    }
    r
}

/// The last `w` decimal digits of `n`, with leading zeros.
pub fn padded_text(n: u128, w: usize) -> (r: Vec<u8>)
    ensures
        r@ == padded_digits(n as nat, w as nat),
    decreases w,
{
    if w == 0 {
        return Vec::new();
    }
    let mut r = padded_text(n / 10, w - 1);
    r.push((n % 10) as u8 + 48);
    r
}

/// `10` to the power `k`.
pub fn pow10_exec(k: usize) -> (r: u128)
    requires
        k <= 18,
    ensures
        r == pow10(k as nat),
        0 < r <= 1_000_000_000_000_000_000,
{
    proof {
        reveal_with_fuel(pow10, 19);
        assert(pow10(17) == 100_000_000_000_000_000);
    }
    let mut r: u128 = 1;
    let mut i: usize = 0;
    while i < k
        invariant
            i <= k <= 18,
            r == pow10(i as nat),
            pow10(17) == 100_000_000_000_000_000,
        decreases k - i,
    {
        proof { lemma_pow10_monotone(i as nat, 17); }
        r = r * 10;
        i = i + 1;
    }
    proof {
        lemma_pow10_monotone(0, k as nat);
        if k < 18 {
            lemma_pow10_monotone(k as nat, 17);
        }
    }
    r
}

pub proof fn lemma_pow10_monotone(a: nat, b: nat)
    requires
        a <= b,
    ensures
        0 < pow10(a) <= pow10(b),
    decreases b,
{
    if b > a {
        lemma_pow10_monotone(a, (b - 1) as nat);
    } else if a > 0 {
        lemma_pow10_monotone((a - 1) as nat, (a - 1) as nat);
    }
}

/// A run of `k` digits denotes less than `10^k`.
pub proof fn lemma_decimal_below_pow10(s: Seq<u8>)
    requires
        forall|i: int| 0 <= i < s.len() ==> is_digit(#[trigger] s[i]),
    ensures
        decimal_value(s) < pow10(s.len()),
    decreases s.len(),
{
    if s.len() > 0 {
        lemma_decimal_below_pow10(s.drop_last());
        assert(is_digit(s[s.len() - 1]));
    }
}

/// A character with Unicode's `White_Space` property.
pub open spec fn is_white_space(c: char) -> bool {
    let v = c as u32;
    (9 <= v <= 13) || v == 32 || v == 0x85 || v == 0xa0 || v == 0x1680 || (0x2000 <= v <= 0x200a)
        || v == 0x2028 || v == 0x2029 || v == 0x202f || v == 0x205f || v == 0x3000
}

/// `s` without its leading white space.
pub open spec fn trim_start_chars(s: Seq<char>) -> Seq<char>
    decreases s.len(),
{
    if s.len() > 0 && is_white_space(s[0]) {
        trim_start_chars(s.drop_first())
    } else {
        s
    }
}

/// `s` without its trailing white space.
pub open spec fn trim_end_chars(s: Seq<char>) -> Seq<char>
    decreases s.len(),
{
    if s.len() > 0 && is_white_space(s.last()) {
        trim_end_chars(s.drop_last())
    } else {
        s
    }
}

/// `s` without white space at either end.
pub open spec fn trim_chars(s: Seq<char>) -> Seq<char> {
    trim_end_chars(trim_start_chars(s))
}

/// Relies on `std::str::from_utf8`: it succeeds exactly on valid UTF-8, and
/// the text is what the bytes encode.
#[verifier::external_body]
pub(crate) fn utf8_str(b: &[u8]) -> (r: Option<&str>)
    ensures
        r is Some <==> vstd::utf8::valid_utf8(b@),
        r matches Some(t) ==> t@ == vstd::utf8::decode_utf8(b@),
{
    std::str::from_utf8(b).ok()
}

/// Relies on `str::trim`: leading and trailing characters with the Unicode
/// `White_Space` property are removed.
#[verifier::external_body]
pub(crate) fn trim_str(s: &str) -> (r: &str)
    ensures
        r@ == trim_chars(s@),
{
    s.trim()
}

} // verus!
