//! Fixed-point decimal codec.
//!
//! The feed carries prices and quantities as decimal strings.  The book
//! orders levels numerically, so the strings are parsed into integers
//! scaled by `SCALE` (eight decimal places) before they reach it; a
//! string the grammar rejects, or a value past `u64::MAX`, is a
//! malformed entry and reported as such, never coerced.
//!
//! The grammar: one or more digits, optionally followed by a dot and
//! one to eight fraction digits.

use vstd::prelude::*;
use crate::book::PriceLevel;

verus! {

/// Fixed-point scale: eight decimal places.
pub const SCALE: u64 = 100000000;

/// `c` is a decimal digit.
pub open spec fn is_digit(c: char) -> bool {
    c == '0' || c == '1' || c == '2' || c == '3' || c == '4' || c == '5' || c == '6' || c == '7'
        || c == '8' || c == '9'
}

/// The value of a digit.
pub open spec fn digit_val(c: char) -> nat {
    if c == '0' {
        0
    } else if c == '1' {
        1
    } else if c == '2' {
        2
    } else if c == '3' {
        3
    } else if c == '4' {
        4
    } else if c == '5' {
        5
    } else if c == '6' {
        6
    } else if c == '7' {
        7
    } else if c == '8' {
        8
    } else {
        9
    }
}

/// Every character of `s` is a digit.
pub open spec fn all_digits(s: Seq<char>) -> bool {
    forall|i: int| 0 <= i < s.len() ==> is_digit(#[trigger] s[i])
}

/// The number a digit string denotes, most significant digit first.
pub open spec fn digits_val(s: Seq<char>) -> nat
    decreases s.len(),
{
    if s.len() == 0 {
        0
    } else {
        10 * digits_val(s.drop_last()) + digit_val(s.last())
    }
}

/// Ten to the `n`.
pub open spec fn pow10(n: nat) -> nat
    decreases n,
{
    if n == 0 {
        1
    } else {
        10 * pow10((n - 1) as nat)
    }
}

/// Some character of `s` is a dot.
pub open spec fn has_dot(s: Seq<char>) -> bool {
    exists|k: int| 0 <= k < s.len() && (#[trigger] s[k]) == '.'
}

/// An index of a dot in `s` (unique in a well-formed decimal).
pub open spec fn dot_index(s: Seq<char>) -> int {
    choose|k: int| 0 <= k < s.len() && (#[trigger] s[k]) == '.'
}

/// A well-formed decimal: a nonempty run of digits, optionally
/// followed by a dot and one to eight fraction digits.
pub open spec fn valid_decimal(s: Seq<char>) -> bool {
    if has_dot(s) {
        let k = dot_index(s);
        1 <= k && all_digits(s.take(k)) && 1 <= s.len() - k - 1 <= 8 && all_digits(
            s.skip(k + 1),
        )
    } else {
        1 <= s.len() && all_digits(s)
    }
}

/// The fixed-point value a well-formed decimal denotes.
pub open spec fn decimal_val(s: Seq<char>) -> nat {
    if has_dot(s) {
        let k = dot_index(s);
        let frac = s.skip(k + 1);
        digits_val(s.take(k)) * (SCALE as nat) + digits_val(frac) * pow10((8 - frac.len()) as nat)
    } else {
        digits_val(s) * (SCALE as nat)
    }
}

/// One more digit multiplies the prefix value by ten and adds it.
pub proof fn lemma_digits_step(s: Seq<char>, i: int)
    requires
        0 <= i < s.len(),
    ensures
        digits_val(s.take(i + 1)) == 10 * digits_val(s.take(i)) + digit_val(s[i]),
{
    assert(s.take(i + 1).drop_last() =~= s.take(i));
    assert(s.take(i + 1).last() == s[i]);
}

/// A digit string dominates each of its prefixes.
pub proof fn lemma_digits_prefix_le(s: Seq<char>, i: int)
    requires
        0 <= i <= s.len(),
    ensures
        digits_val(s.take(i)) <= digits_val(s),
    decreases s.len() - i,
{
    if i < s.len() {
        lemma_digits_step(s, i);
        lemma_digits_prefix_le(s, i + 1);
    } else {
        assert(s.take(i) =~= s);
    }
}

/// A digit string of length `n` denotes less than ten to the `n`.
pub proof fn lemma_digits_lt(s: Seq<char>)
    ensures
        digits_val(s) < pow10(s.len() as nat),
    decreases s.len(),
{
    if s.len() > 0 {
        lemma_digits_lt(s.drop_last());
        assert(digit_val(s.last()) <= 9);
    }
}

/// The first few powers of ten, written out.
pub proof fn lemma_pow10_vals()
    ensures
        pow10(0) == 1,
        pow10(1) == 10,
        pow10(2) == 100,
        pow10(3) == 1000,
        pow10(4) == 10000,
        pow10(5) == 100000,
        pow10(6) == 1000000,
        pow10(7) == 10000000,
        pow10(8) == 100000000,
{
    assert(pow10(0) == 1);
    assert(pow10(1) == 10);
    assert(pow10(2) == 100);
    assert(pow10(3) == 1000);
    assert(pow10(4) == 10000);
    assert(pow10(5) == 100000);
    assert(pow10(6) == 1000000);
    assert(pow10(7) == 10000000);
    assert(pow10(8) == 100000000);
}

/// Powers of ten are positive and grow with the exponent.
pub proof fn lemma_pow10_le(a: nat, b: nat)
    requires
        a <= b,
    ensures
        1 <= pow10(a) <= pow10(b),
    decreases b,
{
    if a == b {
        if a == 0 {
        } else {
            lemma_pow10_le((a - 1) as nat, (a - 1) as nat);
        }
    } else {
        lemma_pow10_le(a, (b - 1) as nat);
        assert(pow10(b) == 10 * pow10((b - 1) as nat));
    }
}

/// Powers of ten multiply as their exponents add.
pub proof fn lemma_pow10_add(a: nat, b: nat)
    ensures
        pow10(a + b) == pow10(a) * pow10(b),
    decreases a,
{
    if a == 0 {
        assert(pow10(0 + b) == 1 * pow10(b));
    } else {
        lemma_pow10_add((a - 1) as nat, b);
        assert(((a - 1) as nat) + b == (a + b - 1) as nat);
        assert(pow10(a + b) == 10 * pow10((a + b - 1) as nat));
        assert(10 * (pow10((a - 1) as nat) * pow10(b)) == (10 * pow10((a - 1) as nat)) * pow10(b))
            by (nonlinear_arith);
    }
}

/// In a string whose only possible dot is at `k`, a valid reading puts
/// the dot exactly there.
pub proof fn lemma_valid_dot_at(s: Seq<char>, k: int)
    requires
        0 <= k < s.len(),
        s[k] == '.',
        forall|t: int| 0 <= t < k ==> (#[trigger] s[t]) != '.',
        valid_decimal(s),
    ensures
        has_dot(s),
        dot_index(s) == k,
{
    assert(has_dot(s));
    let k2 = dot_index(s);
    assert(0 <= k2 < s.len() && s[k2] == '.');
    if k2 > k {
        assert(is_digit(s.take(k2)[k]));
        assert(!is_digit('.'));
        assert(false);
    }
    if k2 < k {
        assert(s[k2] != '.');
        assert(false);
    }
}

/// The digit of `c`, or nothing when `c` is no digit.
fn digit_of(c: char) -> (r: Option<u64>)
    ensures
        match r {
            Option::Some(d) => is_digit(c) && d == digit_val(c),
            Option::None => !is_digit(c),
        },
{
    if c == '0' {
        Some(0)
    } else if c == '1' {
        Some(1)
    } else if c == '2' {
        Some(2)
    } else if c == '3' {
        Some(3)
    } else if c == '4' {
        Some(4)
    } else if c == '5' {
        Some(5)
    } else if c == '6' {
        Some(6)
    } else if c == '7' {
        Some(7)
    } else if c == '8' {
        Some(8)
    } else if c == '9' {
        Some(9)
    } else {
        None
    }
}

/// Ten to the `e`, for small `e`, at run time.
fn pow10_exec(e: u64) -> (r: u64)
    requires
        e <= 8,
    ensures
        r == pow10(e as nat),
{
    proof {
        lemma_pow10_vals();
    }
    if e == 0 {
        1
    } else if e == 1 {
        10
    } else if e == 2 {
        100
    } else if e == 3 {
        1000
    } else if e == 4 {
        10000
    } else if e == 5 {
        100000
    } else if e == 6 {
        1000000
    } else if e == 7 {
        10000000
    } else {
        100000000
    }
}

/// Parses a decimal string into fixed-point units: the value times
/// `SCALE`, exactly when the string fits the grammar and the value
/// fits `u64`; every malformed or overflowing string is rejected.
pub fn parse_decimal(s: &str) -> (r: Option<u64>)
    ensures
        match r {
            Option::Some(v) => valid_decimal(s@) && decimal_val(s@) <= u64::MAX && v
                == decimal_val(s@),
            Option::None => !valid_decimal(s@) || decimal_val(s@) > u64::MAX,
        },
{
    let n = s.unicode_len();

    // find the first dot
    let mut k: usize = 0;
    while k < n && s.get_char(k) != '.'
        invariant
            n == s@.len(),
            k <= n,
            forall|t: int| 0 <= t < k ==> (#[trigger] s@[t]) != '.',
        decreases n - k,
    {
        k = k + 1;
    }
    if k == n {
        assert(!has_dot(s@));
    } else {
        assert(s@[k as int] == '.');
    }
    if k == 0 && k < n {
        // a leading dot: no whole part, invalid under either reading
        proof {
            if valid_decimal(s@) {
                lemma_valid_dot_at(s@, 0);
            }
        }
        return None;
    }
    if n == 0 {
        assert(!valid_decimal(s@));
        return None;
    }

    // whole part: digits before the dot (or the whole string)
    let mut acc: u64 = 0;
    let mut t: usize = 0;
    while t < k
        invariant
            n == s@.len(),
            t <= k <= n,
            k < n ==> s@[k as int] == '.',
            forall|u: int| 0 <= u < k ==> (#[trigger] s@[u]) != '.',
            acc == digits_val(s@.take(t as int)),
            all_digits(s@.take(t as int)),
        decreases k - t,
    {
        let c = s.get_char(t);
        let d = match digit_of(c) {
            Some(d) => d,
            None => {
                proof {
                    if valid_decimal(s@) {
                        if k < n {
                            lemma_valid_dot_at(s@, k as int);
                            assert(is_digit(s@.take(k as int)[t as int]));
                        } else {
                            assert(is_digit(s@[t as int]));
                        }
                    }
                }
                return None;
            },
        };
        proof {
            lemma_digits_step(s@, t as int);
        }
        let ghost grown = s@.take(t as int + 1);
        let step = match acc.checked_mul(10) {
            Some(a) => a.checked_add(d),
            None => None,
        };
        acc = match step {
            Some(a) => a,
            None => {
                proof {
                    assert(digits_val(grown) > u64::MAX);
                    if valid_decimal(s@) {
                        if k < n {
                            lemma_valid_dot_at(s@, k as int);
                            lemma_digits_prefix_le(s@.take(k as int), t as int + 1);
                            assert(s@.take(k as int).take(t as int + 1) =~= grown);
                            assert(digits_val(s@.take(k as int)) * (SCALE as nat) >= digits_val(
                                s@.take(k as int),
                            ) * 1);
                        } else {
                            lemma_digits_prefix_le(s@, t as int + 1);
                            assert(digits_val(s@) * (SCALE as nat) >= digits_val(s@) * 1);
                        }
                        assert(decimal_val(s@) > u64::MAX);
                    }
                }
                return None;
            },
        };
        assert(s@.take(t as int + 1) =~= s@.take(t as int).push(c));
        t = t + 1;
    }

    if k == n {
        // no fraction: the whole string is the whole part
        assert(s@.take(n as int) =~= s@);
        match acc.checked_mul(SCALE) {
            Some(v) => {
                assert(valid_decimal(s@));
                return Some(v);
            },
            None => {
                return None;
            },
        }
    }

    // fraction part: one to eight digits after the dot
    let fl = n - k - 1;
    if fl < 1 || fl > 8 {
        proof {
            if valid_decimal(s@) {
                lemma_valid_dot_at(s@, k as int);
            }
        }
        return None;
    }
    let mut facc: u64 = 0;
    let mut u: usize = k + 1;
    while u < n
        invariant
            n == s@.len(),
            k < u <= n,
            k + 1 + 8 >= n,
            s@[k as int] == '.',
            forall|w: int| 0 <= w < k ==> (#[trigger] s@[w]) != '.',
            facc == digits_val(s@.subrange(k as int + 1, u as int)),
            all_digits(s@.subrange(k as int + 1, u as int)),
        decreases n - u,
    {
        let c = s.get_char(u);
        let d = match digit_of(c) {
            Some(d) => d,
            None => {
                proof {
                    if valid_decimal(s@) {
                        lemma_valid_dot_at(s@, k as int);
                        assert(is_digit(s@.skip(k as int + 1)[u - k - 1]));
                    }
                }
                return None;
            },
        };
        let ghost pref = s@.subrange(k as int + 1, u as int);
        proof {
            lemma_digits_lt(pref);
            assert(pref.len() <= 7);
            lemma_pow10_le(pref.len() as nat, 7);
            lemma_pow10_vals();
            assert(facc < 10000000);
        }
        facc = facc * 10 + d;
        proof {
            assert(s@.subrange(k as int + 1, u as int + 1).drop_last() =~= pref);
            assert(s@.subrange(k as int + 1, u as int + 1).last() == c);
        }
        u = u + 1;
    }
    let ghost frac = s@.skip(k as int + 1);
    assert(frac =~= s@.subrange(k as int + 1, n as int));

    let mul = pow10_exec(8 - (fl as u64));
    proof {
        lemma_digits_lt(frac);
        lemma_pow10_add(frac.len() as nat, (8 - frac.len()) as nat);
        lemma_pow10_vals();
        lemma_pow10_le(0, (8 - frac.len()) as nat);
        assert(facc * mul < 100000000) by (nonlinear_arith)
            requires
                facc < pow10(frac.len() as nat),
                mul == pow10((8 - frac.len()) as nat),
                pow10(frac.len() as nat) * pow10((8 - frac.len()) as nat) == 100000000,
                mul >= 1,
        ;
    }
    let fracpart = facc * mul;
    let scaled = match acc.checked_mul(SCALE) {
        Some(x) => x,
        None => {
            proof {
                if valid_decimal(s@) {
                    lemma_valid_dot_at(s@, k as int);
                }
            }
            return None;
        },
    };
    let v = match scaled.checked_add(fracpart) {
        Some(v) => v,
        None => {
            proof {
                if valid_decimal(s@) {
                    lemma_valid_dot_at(s@, k as int);
                }
            }
            return None;
        },
    };
    proof {
        lemma_valid_dot_at_success(s@, k as int, fl as int);
    }
    Some(v)
}

/// On the success path every character but the dot at `k` is a digit,
/// so the string is a well-formed decimal read at `k`.
proof fn lemma_valid_dot_at_success(s: Seq<char>, k: int, fl: int)
    requires
        0 < k < s.len(),
        s[k] == '.',
        forall|t: int| 0 <= t < k ==> (#[trigger] s[t]) != '.',
        all_digits(s.take(k)),
        all_digits(s.subrange(k + 1, s.len() as int)),
        fl == s.len() - k - 1,
        1 <= fl <= 8,
    ensures
        valid_decimal(s),
        has_dot(s),
        dot_index(s) == k,
        decimal_val(s) == digits_val(s.take(k)) * (SCALE as nat) + digits_val(
            s.subrange(k + 1, s.len() as int),
        ) * pow10((8 - fl) as nat),
{
    assert(has_dot(s));
    let k2 = dot_index(s);
    assert(0 <= k2 < s.len() && s[k2] == '.');
    if k2 > k {
        assert(is_digit(s.subrange(k + 1, s.len() as int)[k2 - k - 1]));
        assert(!is_digit('.'));
        assert(false);
    }
    if k2 < k {
        assert(s[k2] != '.');
        assert(false);
    }
    assert(s.skip(k + 1) =~= s.subrange(k + 1, s.len() as int));
}

/// Parses one batch of (price, quantity) string pairs into levels, in
/// order; the whole batch is rejected when any entry is malformed, so
/// a bad event never reaches the book half-applied.
pub fn parse_levels(entries: &Vec<(String, String)>) -> (r: Option<Vec<PriceLevel>>)
    ensures
        match r {
            Option::Some(v) => v@.len() == entries@.len() && forall|i: int|
                0 <= i < entries@.len() ==> valid_decimal((#[trigger] entries@[i]).0@)
                    && decimal_val(entries@[i].0@) <= u64::MAX && valid_decimal(entries@[i].1@)
                    && decimal_val(entries@[i].1@) <= u64::MAX && v@[i].price == decimal_val(
                    entries@[i].0@,
                ) && v@[i].quantity == decimal_val(entries@[i].1@),
            Option::None => exists|i: int|
                0 <= i < entries@.len() && (!valid_decimal((#[trigger] entries@[i]).0@)
                    || decimal_val(entries@[i].0@) > u64::MAX || !valid_decimal(entries@[i].1@)
                    || decimal_val(entries@[i].1@) > u64::MAX),
        },
{
    let mut out: Vec<PriceLevel> = Vec::new();
    let mut i: usize = 0;
    while i < entries.len()
        invariant
            i <= entries@.len(),
            out@.len() == i,
            forall|t: int|
                0 <= t < i ==> valid_decimal((#[trigger] entries@[t]).0@) && decimal_val(
                    entries@[t].0@,
                ) <= u64::MAX && valid_decimal(entries@[t].1@) && decimal_val(entries@[t].1@)
                    <= u64::MAX && out@[t].price == decimal_val(entries@[t].0@)
                    && out@[t].quantity == decimal_val(entries@[t].1@),
        decreases entries@.len() - i,
    {
        let e = &entries[i];
        let price = match parse_decimal(e.0.as_str()) {
            Some(p) => p,
            None => {
                return None;
            },
        };
        let quantity = match parse_decimal(e.1.as_str()) {
            Some(q) => q,
            None => {
                return None;
            },
        };
        out.push(PriceLevel { price, quantity });
        i = i + 1;
    }
    Some(out)
}

} // verus!
