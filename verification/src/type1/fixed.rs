//! Decimal numbers for outline programs.

use crate::content::{back_trimmed, trim_back};
use crate::text::{decimal, decimal_digits, digit, is_digit};
use crate::type1::number::Number;
use vstd::prelude::*;

verus! {

/// A number of 24 decimal places, which holds every decimal of a font exactly
/// and a quotient to the nearest. What is longer than ten million millions is
/// held to that.
#[derive(Clone, Copy, PartialEq, Eq, Structural, Debug)]
pub struct Fixed {
    pub units: i128,
}

/// The units of one.
pub const ONE: u128 = 1_000_000_000_000_000_000_000_000;

/// A million millions, half the places of one.
pub const HALF_PLACES: u128 = 1_000_000_000_000;

/// The most units.
pub const LIMIT: u128 = 10_000_000_000_000_000_000_000_000_000_000_000_000;

/// The units held to the range.
pub open spec fn held(v: int) -> int {
    if v > LIMIT {
        LIMIT as int
    } else if v < -LIMIT {
        -(LIMIT as int)
    } else {
        v
    }
}

/// The quotient of two lengths, to the nearest.
pub open spec fn nearest(a: int, b: int) -> int {
    (2 * a + b) / (2 * b)
}

/// The length of a number.
pub open spec fn magnitude(v: int) -> int {
    if v < 0 {
        -v
    } else {
        v
    }
}

/// A length with a sign.
pub open spec fn signed(negative: bool, v: int) -> int {
    if negative {
        -v
    } else {
        v
    }
}

/// The power of ten.
pub open spec fn ten_to(k: int) -> int
    decreases k,
{
    if k <= 0 {
        1
    } else {
        10 * ten_to(k - 1)
    }
}

/// The digits among the first `n` bytes of a decimal text, as a number, and
/// how many of them follow the point; less than none before the point.
pub open spec fn scanned(t: Seq<u8>, n: int) -> Option<(int, int)>
    decreases n,
{
    if n <= 0 {
        Some((0, -1))
    } else {
        match scanned(t, n - 1) {
            None => None,
            Some((v, k)) => if is_digit(t[n - 1]) {
                Some((v * 10 + (t[n - 1] - 0x30), if k < 0 {
                    -1
                } else {
                    k + 1
                }))
            } else if t[n - 1] == 0x2E && k < 0 {
                Some((v, 0))
            } else {
                None
            },
        }
    }
}

/// Where the exponent of a decimal text starts, from `i` on: at an `e` or
/// `E`, or where the text ends.
pub open spec fn exponent_at(t: Seq<u8>, i: int) -> int
    decreases t.len() - i,
{
    if i >= t.len() || t[i] == 0x65 || t[i] == 0x45 {
        i
    } else {
        exponent_at(t, i + 1)
    }
}

/// The digits of an exponent, without its sign.
pub open spec fn exponent_digits(t: Seq<u8>) -> Seq<u8> {
    if t.len() > 1 && (t[1] == 0x2D || t[1] == 0x2B) {
        t.skip(2)
    } else {
        t.skip(1)
    }
}

/// The exponent that a text tells from its `e` on: none is zero, and it has
/// at most four digits.
pub open spec fn exponent(t: Seq<u8>) -> Option<int> {
    let d = exponent_digits(t);
    if t.len() == 0 {
        Some(0)
    } else if d.len() == 0 || d.len() > 4 {
        None
    } else {
        match scanned(d, d.len() as int) {
            Some((v, k)) => if k < 0 {
                Some(signed(t[1] == 0x2D, v))
            } else {
                None
            },
            None => None,
        }
    }
}

/// `v` times ten to the power of `s`, to the nearest.
pub open spec fn shifted(v: int, s: int) -> int {
    if s >= 0 {
        v * ten_to(s)
    } else {
        nearest(v, ten_to(-s))
    }
}

/// The units of a decimal text without a sign: digits with at most one point
/// among them, of at most 37 bytes, then an exponent.
pub open spec fn text_units(t: Seq<u8>) -> Option<int> {
    let n = exponent_at(t, 0);
    match (scanned(t, n), exponent(t.skip(n))) {
        (Some((v, k)), Some(e)) => {
            let u = shifted(v, 24 + e - if k < 0 {
                0
            } else {
                k
            });
            if n > 37 || n == 0 || (n == 1 && k == 0) || u > LIMIT {
                None
            } else {
                Some(u)
            }
        },
        _ => None,
    }
}

/// Twelve digits of a fraction.
pub open spec fn twelve_digits(f: int) -> Seq<u8> {
    decimal_digits((HALF_PLACES + f) as nat).skip(1)
}

/// The digits of a fraction, without zeros at the end.
pub open spec fn fraction_digits(f: int) -> Seq<u8> {
    trim_back(twelve_digits(f / HALF_PLACES as int) + twelve_digits(f % HALF_PLACES as int))
}

/// A length in units as a decimal text; a whole number has no point.
pub open spec fn length_text(m: int) -> Seq<u8> {
    let whole = decimal_digits((m / ONE as int) as nat);
    let fraction = fraction_digits(m % ONE as int);
    if fraction.len() == 0 {
        whole
    } else {
        whole + seq![0x2Eu8] + fraction
    }
}

/// The length of a number, held to the range.
fn length(v: i128) -> (r: u128)
    ensures
        r == magnitude(held(v as int)),
        r <= LIMIT,
{
    if v > LIMIT as i128 || v < -(LIMIT as i128) {
        LIMIT
    } else if v < 0 {
        (-v) as u128
    } else {
        v as u128
    }
}

/// The number of this length and sign, held to the range.
fn with_sign(negative: bool, v: u128) -> (r: i128)
    ensures
        r == held(signed(negative, v as int)),
{
    let m: u128 = if v > LIMIT {
        LIMIT
    } else {
        v
    };
    if negative {
        -(m as i128)
    } else {
        m as i128
    }
}

/// Holds a number to the range.
fn hold(v: i128) -> (r: i128)
    ensures
        r == held(v as int),
        -LIMIT <= r <= LIMIT,
{
    if v > LIMIT as i128 {
        LIMIT as i128
    } else if v < -(LIMIT as i128) {
        -(LIMIT as i128)
    } else {
        v
    }
}

proof fn lemma_ten_to(k: int)
    requires
        0 <= k <= 38,
    ensures
        1 <= ten_to(k) <= 100_000_000_000_000_000_000_000_000_000_000_000_000,
        k <= 37 ==> ten_to(k) <= LIMIT,
        k <= 4 ==> ten_to(k) <= 10_000,
        k == 24 ==> ten_to(k) == ONE,
        k == 38 ==> ten_to(k) == 10 * LIMIT,
    decreases k,
{
    reveal_with_fuel(ten_to, 40);
}

proof fn lemma_ten_grows(a: int, b: int)
    requires
        0 <= a <= b,
    ensures
        1 <= ten_to(a) <= ten_to(b),
    decreases b,
{
    if a < b {
        lemma_ten_grows(a, b - 1);
    } else if a > 0 {
        lemma_ten_grows(a - 1, b - 1);
    }
}

proof fn lemma_scanned(t: Seq<u8>, n: int)
    requires
        0 <= n <= t.len(),
        scanned(t, n) is Some,
    ensures
        0 <= (scanned(t, n)->0).0 < ten_to(n),
        -1 <= (scanned(t, n)->0).1 <= n,
    decreases n,
{
    if n > 0 {
        lemma_scanned(t, n - 1);
        let (v, k) = scanned(t, n - 1)->0;
        assert(v * 10 + 9 < 10 * ten_to(n - 1));
    }
}

proof fn lemma_scan_fail(t: Seq<u8>, k: int, n: int)
    requires
        k <= n,
        scanned(t, k) is None,
    ensures
        scanned(t, n) is None,
    decreases n - k,
{
    if k < n {
        lemma_scan_fail(t, k, n - 1);
    }
}

proof fn lemma_exponent_at(t: Seq<u8>, i: int)
    requires
        0 <= i <= t.len(),
    ensures
        i <= exponent_at(t, i) <= t.len(),
    decreases t.len() - i,
{
    if i < t.len() && t[i] != 0x65 && t[i] != 0x45 {
        lemma_exponent_at(t, i + 1);
    }
}

/// The power of ten.
fn power_of_ten(k: u32) -> (r: u128)
    requires
        k <= 37,
    ensures
        r == ten_to(k as int),
        1 <= r <= LIMIT,
{
    let mut r: u128 = 1;
    let mut i: u32 = 0;
    while i < k
        invariant
            i <= k <= 37,
            r == ten_to(i as int),
        decreases k - i,
    {
        proof {
            lemma_ten_to(i as int);
            lemma_ten_to(i + 1);
        }
        r = r * 10;
        i += 1;
    }
    proof {
        lemma_ten_to(k as int);
    }
    r
}

/// Scans `len` bytes from `from` on. Gives the digits as a number, how many
/// follow the point, and whether there is one.
fn scan(text: &[u8], from: usize, len: usize) -> (r: Option<(u128, u32, bool)>)
    requires
        from + len <= text@.len(),
        len <= 37,
    ensures
        match r {
            Some((v, k, point)) => {
                &&& v < ten_to(len as int)
                &&& k <= len
                &&& !point ==> k == 0
                &&& scanned(text@.skip(from as int), len as int) == Some(
                    (v as int, if point {
                        k as int
                    } else {
                        -1
                    }),
                )
            },
            None => scanned(text@.skip(from as int), len as int) is None,
        },
{
    let ghost t = text@.skip(from as int);
    let total: usize = text.len();
    let mut v: u128 = 0;
    let mut k: u32 = 0;
    let mut point = false;
    let mut n: usize = 0;
    while n < len
        invariant
            n <= len <= 37,
            from + len <= total == text@.len(),
            t == text@.skip(from as int),
            v < ten_to(n as int),
            k <= n,
            scanned(t, n as int) == Some(
                (v as int, if point {
                    k as int
                } else {
                    -1
                }),
            ),
            !point ==> k == 0,
        decreases len - n,
    {
        let b: u8 = text[from + n];
        proof {
            assert(b == t[n as int]);
            lemma_ten_to(n as int);
            lemma_ten_to(n + 1);
            if scanned(t, n + 1) is None {
                lemma_scan_fail(t, n + 1, len as int);
            }
        }
        if digit(b) {
            v = v * 10 + (b - 0x30) as u128;
            if point {
                k += 1;
            }
        } else if b == 0x2E && !point {
            point = true;
        } else {
            return None;
        }
        n += 1;
    }
    Some((v, k, point))
}

/// The exponent that the text tells from `from` on, where its `e` stands or
/// the text ends.
fn read_exponent(text: &[u8], from: usize) -> (r: Option<i32>)
    requires
        from <= text@.len(),
    ensures
        match r {
            Some(e) => exponent(text@.skip(from as int)) == Some(e as int) && -10_000 < e < 10_000,
            None => exponent(text@.skip(from as int)) is None,
        },
{
    let ghost t = text@.skip(from as int);
    let total: usize = text.len();
    if from == total {
        return Some(0);
    }
    let negative = from + 1 < total && text[from + 1] == 0x2D;
    let start: usize = if negative || (from + 1 < total && text[from + 1] == 0x2B) {
        from + 2
    } else {
        from + 1
    };
    proof {
        assert(exponent_digits(t) =~= text@.skip(start as int));
    }
    let len: usize = total - start;
    if len == 0 || len > 4 {
        return None;
    }
    let (v, _, point) = scan(text, start, len)?;
    if point {
        return None;
    }
    proof {
        lemma_ten_to(len as int);
        assert(t[1] == text@[from + 1]);
    }
    let e: i32 = v as i32;
    if negative {
        Some(-e)
    } else {
        Some(e)
    }
}

/// `v` times ten to the power of `s`, to the nearest; `None` past the limit.
fn shift(v: u128, s: i32) -> (r: Option<u128>)
    requires
        v < LIMIT,
        -0x10000 < s < 0x10000,
    ensures
        match r {
            Some(u) => shifted(v as int, s as int) == u && u <= LIMIT,
            None => shifted(v as int, s as int) > LIMIT,
        },
{
    if v == 0 {
        proof {
            if s < 0 {
                let b = ten_to(-s);
                lemma_ten_grows(0, -s);
                assert((2 * 0 + b) / (2 * b) == 0) by (nonlinear_arith)
                    requires
                        b >= 1,
                ;
            }
        }
        return Some(0);
    }
    if s > 37 {
        proof {
            let b = ten_to(s as int);
            lemma_ten_grows(38, s as int);
            lemma_ten_to(38);
            assert(v * b >= b) by (nonlinear_arith)
                requires
                    v >= 1,
                    b >= 1,
            ;
        }
        return None;
    }
    if s >= 0 {
        let p: u128 = power_of_ten(s as u32);
        proof {
            assert(v * p <= LIMIT <==> v <= LIMIT as int / p as int) by (nonlinear_arith)
                requires
                    p >= 1,
            ;
        }
        if v > LIMIT / p {
            return None;
        }
        return Some(v * p);
    }
    if s < -37 {
        proof {
            let b = ten_to(-s);
            lemma_ten_grows(38, -s);
            lemma_ten_to(38);
            assert((2 * v + b) / (2 * b) == 0) by (nonlinear_arith)
                requires
                    b >= 1,
                    0 <= v,
                    2 * v < b,
            ;
        }
        return Some(0);
    }
    let p: u128 = power_of_ten((-s) as u32);
    proof {
        assert((2 * v + p) as int / (2 * p) as int <= 2 * v + p) by (nonlinear_arith)
            requires
                p >= 1,
                v >= 0,
        ;
        assert((2 * v + p) as int / (2 * p) as int <= v) by (nonlinear_arith)
            requires
                p >= 1,
                v >= 1,
        ;
    }
    Some((2 * v + p) / (2 * p))
}

/// The units of the decimal text from `from` on.
fn read_units(text: &[u8], from: usize) -> (r: Option<u128>)
    requires
        from <= text@.len(),
    ensures
        match r {
            Some(u) => text_units(text@.skip(from as int)) == Some(u as int) && u <= LIMIT,
            None => text_units(text@.skip(from as int)) is None,
        },
{
    let ghost t = text@.skip(from as int);
    let total: usize = text.len();
    let mut n: usize = 0;
    while n < total - from && text[from + n] != 0x65 && text[from + n] != 0x45
        invariant
            from <= total == text@.len(),
            t == text@.skip(from as int),
            n <= t.len(),
            exponent_at(t, 0) == exponent_at(t, n as int),
        decreases t.len() - n,
    {
        n += 1;
    }
    proof {
        assert(exponent_at(t, 0) == n);
        assert(t.skip(n as int) =~= text@.skip(from + n));
    }
    if n > 37 || n == 0 {
        return None;
    }
    let (v, k, point) = scan(text, from, n)?;
    let e: i32 = read_exponent(text, from + n)?;
    if n == 1 && point && k == 0 {
        return None;
    }
    proof {
        lemma_ten_to(n as int);
    }
    shift(v, 24 + e - k as i32)
}

/// The quotient of two lengths in units, to the nearest, as far as it is in
/// the range.
fn divide(a: u128, b: u128) -> (r: u128)
    requires
        a <= LIMIT,
        1 <= b <= LIMIT,
    ensures
        held(r as int) == held(nearest(a * ONE, b as int)),
{
    let mut q: u128 = a / b;
    let mut rest: u128 = a % b;
    let mut i: u32 = 0;
    proof {
        assert(a == (a as int / b as int) * b + a as int % b as int) by (nonlinear_arith)
            requires
                b >= 1,
        ;
        assert((a as int % b as int) < b);
        assert(ten_to(0) == 1);
    }
    while i < 24 && q <= LIMIT
        invariant
            i <= 24,
            rest < b <= LIMIT,
            q < 10 * LIMIT + 10,
            a * ten_to(i as int) == q * b + rest,
        decreases 24 - i,
    {
        let ghost (q0, r0) = (q as int, rest as int);
        rest = rest * 10;
        let d: u128 = rest / b;
        proof {
            assert(rest == d * b + rest as int % b as int) by (nonlinear_arith)
                requires
                    d == rest as int / b as int,
                    b >= 1,
            ;
            assert(d < 10) by (nonlinear_arith)
                requires
                    d == rest as int / b as int,
                    rest < 10 * b,
                    b >= 1,
            ;
            assert((rest as int % b as int) < b);
            let p = ten_to(i as int);
            assert(a * (10 * p) == 10 * (a * p)) by (nonlinear_arith);
            assert((q0 * 10 + d) * b == 10 * (q0 * b) + d * b) by (nonlinear_arith);
            assert(ten_to(i + 1) == 10 * p);
        }
        q = q * 10 + d;
        rest = rest % b;
        i += 1;
    }
    proof {
        lemma_ten_grows(i as int, 24);
        lemma_ten_to(24);
    }
    if q > LIMIT {
        proof {
            let p = ten_to(i as int);
            let n = a * ONE;
            assert(a * p <= n) by (nonlinear_arith)
                requires
                    a >= 0,
                    p <= ONE,
                    n == a * ONE,
            ;
            assert((2 * n + b) / (2 * b) >= q) by (nonlinear_arith)
                requires
                    n >= q * b,
                    b >= 1,
            ;
        }
        return LIMIT + 1;
    }
    proof {
        let n = a * ONE;
        let up = if 2 * rest >= b {
            1int
        } else {
            0int
        };
        assert((2 * n + b) / (2 * b) == q + up) by (nonlinear_arith)
            requires
                n == q * b + rest,
                0 <= rest < b,
                up == 1 ==> 2 * rest >= b,
                up == 0 ==> 2 * rest < b,
                up == 0 || up == 1,
        ;
    }
    if 2 * rest >= b {
        q + 1
    } else {
        q
    }
}

proof fn lemma_fixed_range(m: int)
    requires
        0 <= m,
    ensures
        m <= 40_000 * ONE ==> 0 <= nearest(m * 0x1_0000, ONE as int) <= 40_000 * 0x1_0000,
        m > 40_000 * ONE ==> nearest(m * 0x1_0000, ONE as int) > 0x8000_0000,
{
    let d: int = 2_000_000_000_000_000_000_000_000;
    let w = 2 * (m * 0x1_0000) + ONE;
    let q = nearest(m * 0x1_0000, ONE as int);
    assert(d == 2 * ONE);
    assert(q * d <= w < (q + 1) * d) by (nonlinear_arith)
        requires
            q == w / d,
            d == 2_000_000_000_000_000_000_000_000,
    ;
}

/// Twelve digits of a fraction.
fn push_twelve(out: &mut Vec<u8>, f: u64)
    requires
        f < HALF_PLACES,
    ensures
        final(out)@ == old(out)@ + twelve_digits(f as int),
{
    let ghost head = out@;
    let tail = decimal(1_000_000_000_000 + f);
    let mut i: usize = 1;
    proof {
        crate::text::decimal_reads_back((HALF_PLACES + f) as nat);
        assert(out@ =~= head + tail@.skip(1).take(0));
    }
    while i < tail.len()
        invariant
            1 <= i <= tail@.len(),
            out@ == head + tail@.skip(1).take(i - 1),
        decreases tail@.len() - i,
    {
        out.push(tail[i]);
        i += 1;
        proof {
            assert(out@ =~= head + tail@.skip(1).take(i - 1));
        }
    }
    proof {
        assert(tail@.skip(1).take(i - 1) =~= tail@.skip(1));
    }
}

impl Number for Fixed {
    open spec fn integer(i: int) -> Fixed {
        Fixed { units: held(i * ONE) as i128 }
    }

    open spec fn sum(self, other: Fixed) -> Fixed {
        Fixed { units: held(held(self.units as int) + held(other.units as int)) as i128 }
    }

    open spec fn difference(self, other: Fixed) -> Fixed {
        Fixed { units: held(held(self.units as int) - held(other.units as int)) as i128 }
    }

    open spec fn quotient(self, other: Fixed) -> Fixed {
        let a = held(self.units as int);
        let b = held(other.units as int);
        let q = nearest(magnitude(a) * ONE, magnitude(b));
        Fixed { units: held(signed((a < 0) != (b < 0), q)) as i128 }
    }

    open spec fn equals(self, other: Fixed) -> bool {
        self.units == other.units
    }

    open spec fn below(self, other: Fixed) -> bool {
        self.units < other.units
    }

    open spec fn whole_value(self) -> Option<i64> {
        let m = magnitude(held(self.units as int));
        if m % ONE as int == 0 {
            Some(signed(self.units < 0, m / ONE as int) as i64)
        } else {
            None
        }
    }

    open spec fn fixed_value(self) -> Option<i32> {
        let m = magnitude(held(self.units as int));
        let v = signed(self.units < 0, nearest(m * 0x1_0000, ONE as int));
        if -0x8000_0000 <= v <= 0x7FFF_FFFF {
            Some(v as i32)
        } else {
            None
        }
    }

    open spec fn spelling(self) -> Option<Seq<u8>> {
        let sign = if self.units < 0 {
            seq![0x2Du8]
        } else {
            Seq::empty()
        };
        Some(sign + length_text(magnitude(held(self.units as int))))
    }

    open spec fn spelled(text: Seq<u8>) -> Option<Fixed> {
        let negative = text.len() > 0 && text[0] == 0x2D;
        let body = if negative || (text.len() > 0 && text[0] == 0x2B) {
            text.skip(1)
        } else {
            text.skip(0)
        };
        match text_units(body) {
            Some(u) => Some(Fixed { units: signed(negative, u) as i128 }),
            None => None,
        }
    }

    open spec fn key(self) -> u128 {
        let m = magnitude(held(self.units as int));
        if self.units < 0 {
            (0x8000_0000_0000_0000_0000_0000_0000_0000 + m) as u128
        } else {
            m as u128
        }
    }

    fn from_int(i: i32) -> (r: Fixed) {
        Fixed { units: i as i128 * ONE as i128 }
    }

    fn plus(self, other: Fixed) -> (r: Fixed) {
        Fixed { units: hold(hold(self.units) + hold(other.units)) }
    }

    fn minus(self, other: Fixed) -> (r: Fixed) {
        Fixed { units: hold(hold(self.units) - hold(other.units)) }
    }

    fn over(self, other: Fixed) -> (r: Fixed) {
        let q: u128 = divide(length(self.units), length(other.units));
        Fixed { units: with_sign((self.units < 0) != (other.units < 0), q) }
    }

    fn is_equal(self, other: Fixed) -> (r: bool) {
        self.units == other.units
    }

    fn is_below(self, other: Fixed) -> (r: bool) {
        self.units < other.units
    }

    fn whole(self) -> (r: Option<i64>) {
        let m: u128 = length(self.units);
        if m % ONE == 0 {
            let v: i64 = (m / ONE) as i64;
            if self.units < 0 {
                Some(-v)
            } else {
                Some(v)
            }
        } else {
            None
        }
    }

    fn fixed(self) -> (r: Option<i32>) {
        let m: u128 = length(self.units);
        proof {
            lemma_fixed_range(m as int);
        }
        if m > 40_000 * ONE {
            return None;
        }
        let v: i64 = ((2 * (m * 0x1_0000) + ONE) / (2 * ONE)) as i64;
        if self.units < 0 {
            if v <= 0x8000_0000 {
                Some((-v) as i32)
            } else {
                None
            }
        } else if v <= 0x7FFF_FFFF {
            Some(v as i32)
        } else {
            None
        }
    }

    fn spell(self) -> (r: Option<Vec<u8>>) {
        let m: u128 = length(self.units);
        let mut out: Vec<u8> = Vec::new();
        if self.units < 0 {
            out.push(0x2D);
        }
        let ghost sign = out@;
        let mut front = decimal((m / ONE) as u64);
        out.append(&mut front);
        let f: u128 = m % ONE;
        let mut tail: Vec<u8> = Vec::new();
        push_twelve(&mut tail, (f / HALF_PLACES) as u64);
        push_twelve(&mut tail, (f % HALF_PLACES) as u64);
        let end: usize = back_trimmed(tail.as_slice(), 0, tail.len());
        proof {
            assert(tail@ =~= twelve_digits(f as int / HALF_PLACES as int) + twelve_digits(
                f as int % HALF_PLACES as int,
            ));
            assert(tail@.subrange(0, tail@.len() as int) =~= tail@);
            assert(tail@.subrange(0, end as int) == fraction_digits(f as int));
        }
        if end > 0 {
            out.push(0x2E);
        }
        let ghost head = out@;
        let mut i: usize = 0;
        proof {
            assert(out@ =~= head + tail@.take(0));
        }
        while i < end
            invariant
                i <= end <= tail@.len(),
                out@ == head + tail@.take(i as int),
            decreases end - i,
        {
            out.push(tail[i]);
            i += 1;
            proof {
                assert(out@ =~= head + tail@.take(i as int));
            }
        }
        proof {
            assert(tail@.take(end as int) =~= tail@.subrange(0, end as int));
            assert(out@ =~= self.spelling()->0);
        }
        Some(out)
    }

    fn read(text: &[u8]) -> (r: Option<Fixed>) {
        let negative = text.len() > 0 && text[0] == 0x2D;
        let from: usize = if negative || (text.len() > 0 && text[0] == 0x2B) {
            1
        } else {
            0
        };
        let u: u128 = read_units(text, from)?;
        if negative {
            Some(Fixed { units: -(u as i128) })
        } else {
            Some(Fixed { units: u as i128 })
        }
    }

    fn bits(self) -> (r: u128) {
        let m: u128 = length(self.units);
        if self.units < 0 {
            0x8000_0000_0000_0000_0000_0000_0000_0000 + m
        } else {
            m
        }
    }
}

} // verus!
