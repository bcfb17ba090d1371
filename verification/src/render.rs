//! Rendering: the top of the book and the last trade as a text block.
//!
//! The display is a pure function of the two top-level lists, the last
//! trade price and the direction indicator, specified character for
//! character.  Ask lines are printed high-to-low so the best ask
//! stands nearest the trade line; bids follow best first.  Writing and
//! flushing the block is the caller's business, not this module's.
//!
//! Fixed-point values are rendered canonically: the whole part, then a
//! dot and the fraction digits with trailing zeros dropped, and no
//! fraction at all when it would be zero.

use vstd::prelude::*;
use crate::book::PriceLevel;
use crate::codec::decimal_val;
use crate::codec::digit_val;
use crate::codec::digits_val;
use crate::codec::dot_index;
use crate::codec::has_dot;
use crate::codec::is_digit;
use crate::codec::lemma_pow10_vals;
use crate::codec::pow10;
use crate::codec::valid_decimal;
use crate::codec::SCALE;
use crate::trade::Direction;

verus! {

/// The character of a digit.
pub open spec fn digit_char(d: nat) -> char {
    if d == 0 {
        '0'
    } else if d == 1 {
        '1'
    } else if d == 2 {
        '2'
    } else if d == 3 {
        '3'
    } else if d == 4 {
        '4'
    } else if d == 5 {
        '5'
    } else if d == 6 {
        '6'
    } else if d == 7 {
        '7'
    } else if d == 8 {
        '8'
    } else {
        '9'
    }
}

/// The decimal digits of `n`, most significant first.
pub open spec fn dec_chars(n: nat) -> Seq<char>
    decreases n,
{
    if n < 10 {
        seq![digit_char(n)]
    } else {
        dec_chars(n / 10).push(digit_char(n % 10))
    }
}

/// The low `w` digits of `f`, zero-padded to width `w`.
pub open spec fn pad_chars(f: nat, w: nat) -> Seq<char>
    decreases w,
{
    if w == 0 {
        Seq::empty()
    } else {
        pad_chars(f / 10, (w - 1) as nat).push(digit_char(f % 10))
    }
}

/// `s` without its trailing zero characters.
pub open spec fn trim_zeros(s: Seq<char>) -> Seq<char>
    decreases s.len(),
{
    if s.len() > 0 && s.last() == '0' {
        trim_zeros(s.drop_last())
    } else {
        s
    }
}

/// The canonical decimal rendering of a fixed-point value.
pub open spec fn decimal_chars(v: nat) -> Seq<char> {
    let whole = v / (SCALE as nat);
    let frac = trim_zeros(pad_chars(v % (SCALE as nat), 8));
    if frac.len() == 0 {
        dec_chars(whole)
    } else {
        dec_chars(whole) + "."@ + frac
    }
}

/// `s` padded with spaces on the right to width `w`.
pub open spec fn pad_to(s: Seq<char>, w: nat) -> Seq<char> {
    if s.len() >= w {
        s
    } else {
        s + Seq::new((w - s.len()) as nat, |i: int| ' ')
    }
}

/// One level line: price and quantity in two twenty-wide columns.
pub open spec fn level_line(l: PriceLevel) -> Seq<char> {
    pad_to(decimal_chars(l.price as nat), 20) + " "@ + pad_to(decimal_chars(l.quantity as nat), 20)
        + "\n"@
}

/// The lines of a run of levels, in order.
pub open spec fn level_lines(s: Seq<PriceLevel>) -> Seq<char>
    decreases s.len(),
{
    if s.len() == 0 {
        Seq::empty()
    } else {
        level_lines(s.drop_last()) + level_line(s.last())
    }
}

/// The one-character marker of a direction.
pub open spec fn direction_marker(d: Direction) -> Seq<char> {
    match d {
        Direction::Up => "+"@,
        Direction::Down => "-"@,
        Direction::Unchanged => "="@,
        Direction::Unknown => "?"@,
    }
}

/// The heading: the instrument's name and the two column titles.
pub open spec fn heading(symbol: Seq<char>) -> Seq<char> {
    "\n"@ + symbol + " orderbook\n\n"@ + pad_to("price"@, 20) + " "@ + pad_to("quantity"@, 20)
        + "\n"@
}

/// The trade line: the direction marker and the last price, if any.
pub open spec fn trade_line(d: Direction, last: Option<u64>) -> Seq<char> {
    "\n"@ + direction_marker(d) + " "@ + (match last {
        Option::Some(v) => decimal_chars(v as nat),
        Option::None => Seq::<char>::empty(),
    }) + "\n\n"@
}

/// The whole display: heading, asks high-to-low toward the spread, the
/// trade line, bids best first.
pub open spec fn display(
    symbol: Seq<char>,
    asks: Seq<PriceLevel>,
    bids: Seq<PriceLevel>,
    d: Direction,
    last: Option<u64>,
) -> Seq<char> {
    heading(symbol) + level_lines(asks.reverse()) + trade_line(d, last) + level_lines(bids)
}


/// A digit's character reads back as that digit, and is never a dot.
proof fn lemma_digit_roundtrip(d: nat)
    requires
        d < 10,
    ensures
        is_digit(digit_char(d)),
        digit_val(digit_char(d)) == d,
        digit_char(d) != '.',
{
}

/// The digits of `n` read back as `n`.
proof fn lemma_dec_chars_val(n: nat)
    ensures
        all_digit_chars(dec_chars(n)),
        dec_chars(n).len() >= 1,
        digits_val(dec_chars(n)) == n,
    decreases n,
{
    if n < 10 {
        lemma_digit_roundtrip(n);
        assert(dec_chars(n) =~= seq![digit_char(n)]);
        assert(dec_chars(n).drop_last() =~= Seq::<char>::empty());
        assert(dec_chars(n).last() == digit_char(n));
        assert(digits_val(Seq::<char>::empty()) == 0);
        assert(digits_val(dec_chars(n)) == 10 * digits_val(dec_chars(n).drop_last()) + digit_val(
            dec_chars(n).last(),
        ));
    } else {
        lemma_dec_chars_val(n / 10);
        lemma_digit_roundtrip(n % 10);
        let head = dec_chars(n / 10);
        let t = head.push(digit_char(n % 10));
        assert(t.drop_last() =~= head);
        assert(t.last() == digit_char(n % 10));
        assert(digits_val(t) == 10 * (n / 10) + n % 10);
        assert forall|i: int| 0 <= i < t.len() implies is_digit(#[trigger] t[i]) by {
            if i < head.len() {
                assert(t[i] == head[i]);
            }
        }
    }
}

/// Every character of `s` is a digit (and so no dot).
spec fn all_digit_chars(s: Seq<char>) -> bool {
    forall|i: int| 0 <= i < s.len() ==> is_digit(#[trigger] s[i])
}

/// The zero-padded low digits of `f` read back as `f` when it fits.
proof fn lemma_pad_chars_val(f: nat, w: nat)
    ensures
        all_digit_chars(pad_chars(f, w)),
        pad_chars(f, w).len() == w,
        f < pow10(w) ==> digits_val(pad_chars(f, w)) == f,
    decreases w,
{
    if w > 0 {
        lemma_pad_chars_val(f / 10, (w - 1) as nat);
        lemma_digit_roundtrip(f % 10);
        let head = pad_chars(f / 10, (w - 1) as nat);
        let t = head.push(digit_char(f % 10));
        assert(t.drop_last() =~= head);
        assert(t.last() == digit_char(f % 10));
        assert forall|i: int| 0 <= i < t.len() implies is_digit(#[trigger] t[i]) by {
            if i < head.len() {
                assert(t[i] == head[i]);
            }
        }
        if f < pow10(w) {
            assert(pow10(w) == 10 * pow10((w - 1) as nat));
            assert(f / 10 < pow10((w - 1) as nat)) by (nonlinear_arith)
                requires
                    f < 10 * pow10((w - 1) as nat),
            ;
            assert(digits_val(t) == 10 * (f / 10) + f % 10);
        }
    }
}

/// Trimming trailing zeros divides a digit string's value by the
/// matching power of ten, exactly.
proof fn lemma_trim_zeros_val(t: Seq<char>)
    requires
        all_digit_chars(t),
    ensures
        all_digit_chars(trim_zeros(t)),
        trim_zeros(t).len() <= t.len(),
        digits_val(t) == digits_val(trim_zeros(t)) * pow10((t.len() - trim_zeros(t).len()) as nat),
        trim_zeros(t).len() > 0 ==> trim_zeros(t).last() != '0',
    decreases t.len(),
{
    if t.len() > 0 && t.last() == '0' {
        let head = t.drop_last();
        assert forall|i: int| 0 <= i < head.len() implies is_digit(#[trigger] head[i]) by {
            assert(head[i] == t[i]);
        }
        lemma_trim_zeros_val(head);
        let tr = trim_zeros(t);
        assert(tr == trim_zeros(head));
        assert(digit_val('0') == 0);
        assert(digits_val(t) == 10 * digits_val(head));
        let e = (head.len() - tr.len()) as nat;
        assert(digits_val(head) == digits_val(tr) * pow10(e));
        assert((t.len() - tr.len()) as nat == e + 1);
        assert(pow10(e + 1) == 10 * pow10(e));
        assert(digits_val(t) == digits_val(tr) * pow10(e + 1)) by (nonlinear_arith)
            requires
                digits_val(t) == 10 * digits_val(head),
                digits_val(head) == digits_val(tr) * pow10(e),
                pow10(e + 1) == 10 * pow10(e),
        ;
        assert(digits_val(t) == digits_val(trim_zeros(t)) * pow10(
            (t.len() - trim_zeros(t).len()) as nat,
        ));
    } else {
        assert(trim_zeros(t) == t);
        assert(pow10(0) == 1);
        assert(digits_val(t) * 1 == digits_val(t));
        assert(digits_val(t) == digits_val(trim_zeros(t)) * pow10(
            (t.len() - trim_zeros(t).len()) as nat,
        ));
    }
}

/// Rendering a fixed-point value and parsing the text back returns the
/// value: the canonical decimal form is always a well-formed decimal
/// and reads as itself.
pub proof fn lemma_decimal_chars_roundtrip(v: u64)
    ensures
        valid_decimal(decimal_chars(v as nat)),
        decimal_val(decimal_chars(v as nat)) == v,
{
    let n = v as nat;
    let whole = n / (SCALE as nat);
    let f = n % (SCALE as nat);
    lemma_pow10_vals();
    lemma_dec_chars_val(whole);
    lemma_pad_chars_val(f, 8);
    let dw = dec_chars(whole);
    let pad8 = pad_chars(f, 8);
    lemma_trim_zeros_val(pad8);
    let tr = trim_zeros(pad8);
    let s = decimal_chars(n);
    if tr.len() == 0 {
        assert(s == dw);
        assert(!has_dot(s)) by {
            if has_dot(s) {
                let k2 = dot_index(s);
                assert(is_digit(s[k2]));
                lemma_digit_is_no_dot(s[k2]);
            }
        }
        assert(valid_decimal(s));
        assert(digits_val(pad8) == 0 * pow10(8));
        assert(f == 0);
        assert(decimal_val(s) == whole * (SCALE as nat));
        assert(n == (SCALE as nat) * whole + f);
    } else {
        reveal_strlit(".");
        assert("."@ =~= seq!['.']);
        assert(s == dw + "."@ + tr);
        let k = dw.len() as int;
        assert(s[k] == '.');
        assert(has_dot(s));
        assert forall|t2: int| 0 <= t2 < s.len() && t2 != k implies (#[trigger] s[t2]) != '.' by {
            if t2 < k {
                assert(s[t2] == dw[t2]);
                lemma_digit_is_no_dot(dw[t2]);
            } else {
                assert(s[t2] == tr[t2 - k - 1]);
                lemma_digit_is_no_dot(tr[t2 - k - 1]);
            }
        }
        let k2 = dot_index(s);
        assert(0 <= k2 < s.len() && s[k2] == '.');
        assert(k2 == k);
        assert(s.take(k) =~= dw);
        assert(s.skip(k + 1) =~= tr);
        assert(1 <= s.len() - k - 1 <= 8);
        assert(valid_decimal(s));
        assert(decimal_val(s) == digits_val(dw) * (SCALE as nat) + digits_val(tr) * pow10(
            (8 - tr.len()) as nat,
        ));
        assert(digits_val(tr) * pow10((8 - tr.len()) as nat) == f);
        assert(n == (SCALE as nat) * whole + f);
    }
}

/// A digit character is not the dot.
proof fn lemma_digit_is_no_dot(c: char)
    requires
        is_digit(c),
    ensures
        c != '.',
{
}

/// The one-character string of a digit.
fn digit_str(d: u64) -> (r: &'static str)
    requires
        d < 10,
    ensures
        r@ == seq![digit_char(d as nat)],
{
    proof {
        reveal_strlit("0");
        reveal_strlit("1");
        reveal_strlit("2");
        reveal_strlit("3");
        reveal_strlit("4");
        reveal_strlit("5");
        reveal_strlit("6");
        reveal_strlit("7");
        reveal_strlit("8");
        reveal_strlit("9");
    }
    let r: &'static str = if d == 0 {
        "0"
    } else if d == 1 {
        "1"
    } else if d == 2 {
        "2"
    } else if d == 3 {
        "3"
    } else if d == 4 {
        "4"
    } else if d == 5 {
        "5"
    } else if d == 6 {
        "6"
    } else if d == 7 {
        "7"
    } else if d == 8 {
        "8"
    } else {
        "9"
    };
    proof {
        assert(r@ =~= seq![digit_char(d as nat)]);
    }
    r
}

/// Appends the decimal digits of `n`.
fn append_dec(out: &mut String, n: u64)
    ensures
        final(out)@ == old(out)@ + dec_chars(n as nat),
{
    let mut rev: Vec<u64> = Vec::new();
    let mut m: u64 = n;
    let ghost mut suffix: Seq<char> = Seq::empty();
    while m >= 10
        invariant
            dec_chars(n as nat) == dec_chars(m as nat) + suffix,
            rev@.len() == suffix.len(),
            forall|t: int|
                0 <= t < rev@.len() ==> (#[trigger] rev@[t]) < 10 && digit_char(rev@[t] as nat)
                    == suffix[suffix.len() - 1 - t],
        decreases m,
    {
        let d = m % 10;
        rev.push(d);
        proof {
            assert(dec_chars(m as nat) == dec_chars((m / 10) as nat).push(
                digit_char((m % 10) as nat),
            ));
            assert(dec_chars((m / 10) as nat).push(digit_char((m % 10) as nat)) + suffix
                =~= dec_chars((m / 10) as nat) + (seq![digit_char((m % 10) as nat)] + suffix));
            suffix = seq![digit_char((m % 10) as nat)] + suffix;
        }
        m = m / 10;
    }
    out.append(digit_str(m));
    assert(dec_chars(m as nat) =~= seq![digit_char(m as nat)]);
    let ghost base = out@;
    assert(base == old(out)@ + dec_chars(m as nat));
    let mut t: usize = rev.len();
    while t > 0
        invariant
            t <= rev@.len(),
            rev@.len() == suffix.len(),
            forall|w: int|
                0 <= w < rev@.len() ==> (#[trigger] rev@[w]) < 10 && digit_char(rev@[w] as nat)
                    == suffix[suffix.len() - 1 - w],
            out@ == base + suffix.take(suffix.len() - t),
            base == old(out)@ + dec_chars(m as nat),
            dec_chars(n as nat) == dec_chars(m as nat) + suffix,
        decreases t,
    {
        let d = rev[t - 1];
        out.append(digit_str(d));
        proof {
            assert(digit_char(d as nat) == suffix[suffix.len() - t]);
            assert(base + suffix.take(suffix.len() - t) + seq![digit_char(d as nat)] =~= base
                + suffix.take(suffix.len() - (t - 1)));
        }
        t = t - 1;
    }
    proof {
        assert(suffix.take(suffix.len() as int) =~= suffix);
        assert(out@ =~= old(out)@ + dec_chars(n as nat));
    }
}

/// Appends the canonical decimal rendering of a fixed-point value.
fn append_decimal(out: &mut String, v: u64)
    ensures
        final(out)@ == old(out)@ + decimal_chars(v as nat),
{
    let whole = v / SCALE;
    let f = v % SCALE;
    let ghost pad8 = pad_chars(f as nat, 8);

    // the eight fraction digits, least significant first
    let mut rev: Vec<u64> = Vec::new();
    let mut x: u64 = f;
    let ghost mut suffix: Seq<char> = Seq::empty();
    let mut c: usize = 0;
    while c < 8
        invariant
            c <= 8,
            pad8 == pad_chars(x as nat, (8 - c) as nat) + suffix,
            rev@.len() == suffix.len(),
            suffix.len() == c,
            forall|t: int|
                0 <= t < rev@.len() ==> (#[trigger] rev@[t]) < 10 && digit_char(rev@[t] as nat)
                    == suffix[suffix.len() - 1 - t],
        decreases 8 - c,
    {
        let d = x % 10;
        rev.push(d);
        proof {
            assert(pad_chars(x as nat, (8 - c) as nat) == pad_chars(
                (x / 10) as nat,
                (8 - c - 1) as nat,
            ).push(digit_char((x % 10) as nat)));
            assert(pad_chars((x / 10) as nat, (8 - c - 1) as nat).push(
                digit_char((x % 10) as nat),
            ) + suffix =~= pad_chars((x / 10) as nat, (8 - c - 1) as nat) + (seq![
                digit_char((x % 10) as nat),
            ] + suffix));
            suffix = seq![digit_char((x % 10) as nat)] + suffix;
        }
        x = x / 10;
        c = c + 1;
    }
    proof {
        assert(pad_chars(x as nat, 0) =~= Seq::<char>::empty());
        assert(pad8 =~= suffix);
    }

    // trailing zeros of the fraction are leading entries of `rev`
    proof {
        assert(suffix.take(8) =~= suffix);
    }
    let mut z: usize = 0;
    while z < 8 && rev[z] == 0
        invariant
            z <= 8,
            rev@.len() == 8,
            suffix.len() == 8,
            pad8 == suffix,
            forall|t: int|
                0 <= t < rev@.len() ==> (#[trigger] rev@[t]) < 10 && digit_char(rev@[t] as nat)
                    == suffix[suffix.len() - 1 - t],
            trim_zeros(pad8) == trim_zeros(suffix.take(8 - z)),
        decreases 8 - z,
    {
        proof {
            assert(suffix.take(8 - z).last() == suffix[8 - z - 1]);
            assert(suffix[8 - z - 1] == digit_char(rev@[z as int] as nat));
            assert(digit_char(rev@[z as int] as nat) == '0');
            assert(suffix.take(8 - z).drop_last() =~= suffix.take(8 - (z + 1)));
        }
        z = z + 1;
    }
    let ghost frac = trim_zeros(pad8);
    proof {
        if z == 8 {
            assert(suffix.take(0) =~= Seq::<char>::empty());
            assert(frac =~= Seq::<char>::empty());
        } else {
            assert(suffix.take(8 - z).last() == digit_char(rev@[z as int] as nat));
            assert(rev@[z as int] != 0);
            assert(digit_char(rev@[z as int] as nat) != '0');
            assert(frac == suffix.take(8 - z));
            assert(frac.len() == 8 - z);
        }
    }

    append_dec(out, whole);
    if z < 8 {
        proof {
            reveal_strlit(".");
        }
        out.append(".");
        let ghost base = out@;
        let mut t: usize = 8;
        while t > z
            invariant
                z <= t <= 8,
                z < 8,
                rev@.len() == 8,
                suffix.len() == 8,
                frac == suffix.take(8 - z),
                forall|w: int|
                    0 <= w < rev@.len() ==> (#[trigger] rev@[w]) < 10 && digit_char(rev@[w] as nat)
                        == suffix[suffix.len() - 1 - w],
                out@ == base + suffix.take(8 - t),
            decreases t,
        {
            let d = rev[t - 1];
            out.append(digit_str(d));
            proof {
                assert(digit_char(d as nat) == suffix[8 - t]);
                assert(base + suffix.take(8 - t) + seq![digit_char(d as nat)] =~= base
                    + suffix.take(8 - (t - 1)));
            }
            t = t - 1;
        }
        proof {
            assert(out@ == base + frac);
            assert(decimal_chars(v as nat) == dec_chars((v as nat) / (SCALE as nat)) + "."@
                + frac);
            assert(whole == (v as nat) / (SCALE as nat));
            assert(out@ =~= old(out)@ + decimal_chars(v as nat));
        }
    } else {
        proof {
            assert(decimal_chars(v as nat) == dec_chars((v as nat) / (SCALE as nat)));
            assert(whole == (v as nat) / (SCALE as nat));
        }
    }
}

/// The canonical decimal text of a fixed-point value; parsing it back
/// returns the value (`lemma_decimal_chars_roundtrip`).
pub fn format_decimal(v: u64) -> (r: String)
    ensures
        r@ == decimal_chars(v as nat),
{
    let mut out = String::new();
    append_decimal(&mut out, v);
    proof {
        assert(out@ =~= decimal_chars(v as nat));
    }
    out
}

/// Appends `s` padded with spaces on the right to width `w`.
fn append_padded(out: &mut String, s: &str, w: usize)
    ensures
        final(out)@ == old(out)@ + pad_to(s@, w as nat),
{
    out.append(s);
    let n0 = s.unicode_len();
    let mut extra: usize = 0;
    proof {
        reveal_strlit(" ");
    }
    while n0 + extra < w
        invariant
            n0 == s@.len(),
            n0 + extra <= w || extra == 0,
            out@ == old(out)@ + s@ + Seq::new(extra as nat, |i: int| ' '),
        decreases w - n0 - extra,
    {
        out.append(" ");
        proof {
            reveal_strlit(" ");
            assert(" "@ =~= seq![' ']);
            assert(Seq::new(extra as nat, |i: int| ' ').push(' ') =~= Seq::new(
                (extra + 1) as nat,
                |i: int| ' ',
            ));
            assert(old(out)@ + s@ + Seq::new(extra as nat, |i: int| ' ') + seq![' '] =~= old(out)@
                + s@ + Seq::new((extra + 1) as nat, |i: int| ' '));
        }
        extra = extra + 1;
    }
    proof {
        if s@.len() >= w {
            assert(extra == 0);
            assert(Seq::new(0, |i: int| ' ') =~= Seq::<char>::empty());
            assert(out@ =~= old(out)@ + pad_to(s@, w as nat));
        } else {
            assert(n0 + extra == w);
            assert(out@ =~= old(out)@ + pad_to(s@, w as nat));
        }
    }
}

/// Appends one level line.
fn append_level(out: &mut String, l: PriceLevel)
    ensures
        final(out)@ == old(out)@ + level_line(l),
{
    let mut p = String::new();
    append_decimal(&mut p, l.price);
    append_padded(out, p.as_str(), 20);
    out.append(" ");
    let mut q = String::new();
    append_decimal(&mut q, l.quantity);
    append_padded(out, q.as_str(), 20);
    out.append("\n");
    proof {
        assert(p@ =~= decimal_chars(l.price as nat));
        assert(q@ =~= decimal_chars(l.quantity as nat));
        assert(out@ =~= old(out)@ + level_line(l));
    }
}

/// Peeling the last level off a run splits its lines.
proof fn lemma_lines_step(s: Seq<PriceLevel>, t: int)
    requires
        0 <= t < s.len(),
    ensures
        level_lines(s.take(t + 1)) == level_lines(s.take(t)) + level_line(s[t]),
{
    assert(s.take(t + 1).drop_last() =~= s.take(t));
    assert(s.take(t + 1).last() == s[t]);
}

/// The display block for the given view, exactly as `display` spells
/// it: a pure function of the two top lists, the direction and the
/// last price.
pub fn render(
    symbol: &str,
    asks: &Vec<PriceLevel>,
    bids: &Vec<PriceLevel>,
    direction: Direction,
    last_price: Option<u64>,
) -> (r: String)
    ensures
        r@ == display(symbol@, asks@, bids@, direction, last_price),
{
    let mut out = String::new();
    out.append("\n");
    out.append(symbol);
    out.append(" orderbook\n\n");
    append_padded(&mut out, "price", 20);
    out.append(" ");
    append_padded(&mut out, "quantity", 20);
    out.append("\n");
    assert(out@ =~= heading(symbol@));

    let ghost rev = asks@.reverse();
    let ghost after_heading = out@;
    let n = asks.len();
    let mut t: usize = 0;
    while t < n
        invariant
            t <= n,
            n == asks@.len(),
            rev == asks@.reverse(),
            out@ == after_heading + level_lines(rev.take(t as int)),
        decreases n - t,
    {
        let l = asks[n - 1 - t];
        proof {
            assert(rev[t as int] == asks@[n - 1 - t]);
        }
        append_level(&mut out, l);
        proof {
            lemma_lines_step(rev, t as int);
        }
        t = t + 1;
    }
    proof {
        assert(rev.take(rev.len() as int) =~= rev);
    }

    out.append("\n");
    match direction {
        Direction::Up => out.append("+"),
        Direction::Down => out.append("-"),
        Direction::Unchanged => out.append("="),
        Direction::Unknown => out.append("?"),
    }
    out.append(" ");
    match last_price {
        Some(v) => {
            append_decimal(&mut out, v);
        },
        None => {},
    }
    out.append("\n\n");
    let ghost after_trade = out@;
    proof {
        assert(after_trade =~= after_heading + level_lines(rev) + trade_line(
            direction,
            last_price,
        ));
    }

    let m = bids.len();
    let mut u: usize = 0;
    while u < m
        invariant
            u <= m,
            m == bids@.len(),
            out@ == after_trade + level_lines(bids@.take(u as int)),
        decreases m - u,
    {
        let l = bids[u];
        append_level(&mut out, l);
        proof {
            lemma_lines_step(bids@, u as int);
        }
        u = u + 1;
    }
    proof {
        assert(bids@.take(bids@.len() as int) =~= bids@);
        assert(out@ =~= display(symbol@, asks@, bids@, direction, last_price));
    }
    out
}

} // verus!
