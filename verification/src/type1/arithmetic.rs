//! What decimal numbers compute.

use crate::text::{digits_value, is_digit};
use crate::type1::emit::{lemma_ordered, ordered, stands_behind, stem_place};
use crate::type1::fixed::{
    exponent_at, held, magnitude, nearest, scanned, ten_to, text_units, Fixed, LIMIT, ONE,
};
use crate::type1::interp::Stem;
use crate::type1::number::Number;
use crate::type1::redrawn::{in_units, zero_is_zero};
use vstd::prelude::*;

verus! {

/// An integer that a number can hold with room to spare.
pub open spec fn small(i: int) -> bool {
    -0x1_0000_0000 < i < 0x1_0000_0000
}

/// Integers are added, subtracted and compared as integers.
pub proof fn integers_compute_as_integers(i: int, j: int)
    requires
        small(i),
        small(j),
    ensures
        Fixed::integer(i).sum(Fixed::integer(j)) == Fixed::integer(i + j),
        Fixed::integer(i).difference(Fixed::integer(j)) == Fixed::integer(i - j),
        Fixed::integer(i).equals(Fixed::integer(j)) <==> i == j,
        Fixed::integer(i).below(Fixed::integer(j)) <==> i < j,
        Fixed::integer(i).whole_value() == Some(i as i64),
        i != j ==> Fixed::integer(i).key() != Fixed::integer(j).key(),
{
    let m = magnitude(i);
    assert((m * ONE) % (ONE as int) == 0 && (m * ONE) / (ONE as int) == m) by (nonlinear_arith)
        requires
            ONE == 1_000_000_000_000_000_000_000_000,
    ;
    assert(magnitude(held(i * ONE)) == m * ONE);
}

/// A number plus another, less the other, is the number, where no sum leaves
/// the range.
pub proof fn differences_undo_sums(a: Fixed, b: Fixed)
    requires
        -LIMIT <= a.units <= LIMIT,
        -LIMIT <= b.units <= LIMIT,
        -LIMIT <= a.units + b.units <= LIMIT,
    ensures
        a.sum(b).difference(b) == a,
        a.sum(b) == b.sum(a),
        b.units > 0 <==> a.below(a.sum(b)),
{
}

/// The quotient is the nearest number: the divisor times it lies within half
/// a divisor's unit of the dividend.
pub proof fn quotient_is_nearest(a: Fixed, b: Fixed)
    requires
        -LIMIT <= a.units <= LIMIT,
        0 < b.units <= LIMIT,
        -LIMIT < a.quotient(b).units < LIMIT,
    ensures
        -(b.units as int) <= 2 * (a.quotient(b).units * b.units - a.units * ONE) <= b.units,
{
    let d = b.units as int;
    let m = magnitude(a.units as int);
    let q = nearest(m * ONE, d);
    assert(2 * d * q <= 2 * (m * ONE) + d < 2 * d * q + 2 * d) by (nonlinear_arith)
        requires
            d > 0,
            q == (2 * (m * ONE) + d) / (2 * d),
    ;
    let r = a.quotient(b).units as int;
    assert(q >= 0) by (nonlinear_arith)
        requires
            d > 0,
            m * ONE >= 0,
            q == (2 * (m * ONE) + d) / (2 * d),
    ;
    assert(2 * d * q == 2 * (q * d)) by (nonlinear_arith);
    if a.units < 0 {
        assert(r == -q);
        assert((-q) * d == -(q * d)) by (nonlinear_arith);
        assert(a.units * ONE == -(m * ONE));
    } else {
        assert(r == q);
    }
}

/// A quotient has the sign that its parts have: with the other sign on either
/// it is the same with the other sign.
pub proof fn quotient_has_its_sign(a: Fixed, b: Fixed)
    requires
        -LIMIT <= a.units <= LIMIT,
        -LIMIT <= b.units <= LIMIT,
        a.units != 0,
        b.units != 0,
    ensures
        (Fixed { units: (-a.units) as i128 }).quotient(b).units == -a.quotient(b).units,
        a.quotient(Fixed { units: (-b.units) as i128 }).units == -a.quotient(b).units,
{
}

/// An exact quotient is found: `i * j` over `j` is `i`.
pub proof fn quotient_undoes_product(i: int, j: int)
    requires
        0 <= i < 0x10_0000,
        0 < j < 0x10_0000,
    ensures
        Fixed::integer(i * j).quotient(Fixed::integer(j)) == Fixed::integer(i),
{
    assert(0 <= i * j < 0x100_0000_0000) by (nonlinear_arith)
        requires
            0 <= i < 0x10_0000,
            0 < j < 0x10_0000,
    ;
    let a = (i * j) * ONE;
    let b = j * ONE;
    assert((2 * (a * ONE) + b) / (2 * b) == i * ONE) by (nonlinear_arith)
        requires
            a == (i * j) * ONE,
            b == j * ONE,
            b > 0,
            i >= 0,
    {
        let c: int = i * ONE;
        assert(a * ONE == b * c);
        assert(2 * (a * ONE) + b == (2 * b) * c + b);
        vstd::arithmetic::div_mod::lemma_fundamental_div_mod_converse(
            2 * (a * ONE) + b,
            2 * b,
            c,
            b,
        );
    }
}

/// The 16.16 value is the nearest: it lies within half of its own unit.
pub proof fn fixed_value_is_nearest(v: Fixed)
    requires
        -LIMIT <= v.units <= LIMIT,
        v.fixed_value() is Some,
    ensures
        -(ONE as int) <= 2 * (v.fixed_value()->0 * ONE - v.units * 0x1_0000) <= ONE,
{
    let m = magnitude(v.units as int);
    let q = nearest(m * 0x1_0000, ONE as int);
    assert(2 * ONE * q <= 2 * (m * 0x1_0000) + ONE < 2 * ONE * q + 2 * ONE) by (nonlinear_arith)
        requires
            q == (2 * (m * 0x1_0000) + ONE) / (2 * ONE),
            ONE == 1_000_000_000_000_000_000_000_000,
    ;
}

/// Zero has no units, and small integers are written as they are.
pub proof fn integers_are_written_exactly(i: int)
    requires
        -32768 <= i <= 32767,
    ensures
        zero_is_zero::<Fixed>(),
        in_units(Fixed::integer(i)) == i * 0x1_0000,
{
    integers_compute_as_integers(i, 0);
    assert forall|v: Fixed| #[trigger] v.equals(Fixed::integer(0)) implies in_units(v) == 0 by {
        integers_compute_as_integers(0, 0);
        assert(v == Fixed::integer(0));
    }
}

/// One stem is written before another or beside it: it starts lower, or at
/// the same place and ends no higher.
pub open spec fn no_higher(a: Stem<Fixed>, b: Stem<Fixed>) -> bool {
    a.lo.units < b.lo.units || (a.lo.units == b.lo.units && a.lo.sum(a.ext).units <= b.lo.sum(
        b.ext,
    ).units)
}

proof fn lemma_place_sorted(stems: Seq<Stem<Fixed>>, list: Seq<usize>, x: usize, j: int)
    requires
        0 <= j <= list.len(),
        x < stems.len(),
        forall|k: int| 0 <= k < list.len() ==> #[trigger] list[k] < stems.len(),
    ensures
        ({
            let p = stem_place(stems, list, x, j);
            &&& j <= p <= list.len()
            &&& forall|k: int|
                j <= k < p ==> no_higher(stems[(#[trigger] list[k]) as int], stems[x as int])
            &&& p < list.len() ==> no_higher(stems[x as int], stems[list[p] as int])
        }),
    decreases list.len() - j,
{
    if j < list.len() {
        assert(list[j] < stems.len());
        if !stands_behind(stems[list[j] as int], stems[x as int]) {
            lemma_place_sorted(stems, list, x, j + 1);
        }
    }
}

/// The stems of one kind are written in ascending order.
pub proof fn stems_are_written_in_order(
    stems: Seq<Stem<Fixed>>,
    horiz: bool,
    n: int,
)
    requires
        0 <= n <= stems.len() <= usize::MAX,
    ensures
        forall|i: int, j: int|
            0 <= i < j < ordered(stems, horiz, n).len() ==> no_higher(
                stems[(#[trigger] ordered(stems, horiz, n)[i]) as int],
                stems[(#[trigger] ordered(stems, horiz, n)[j]) as int],
            ),
    decreases n,
{
    if n > 0 {
        stems_are_written_in_order(stems, horiz, n - 1);
        lemma_ordered(stems, horiz, n - 1);
        let list = ordered(stems, horiz, n - 1);
        let x = (n - 1) as usize;
        if stems[n - 1].horiz == horiz {
            lemma_place_sorted(stems, list, x, 0);
            let p = stem_place(stems, list, x, 0);
            let next = list.insert(p, x);
            assert forall|i: int, j: int| 0 <= i < j < next.len() implies no_higher(
                stems[(#[trigger] next[i]) as int],
                stems[(#[trigger] next[j]) as int],
            ) by {
                let a = if i < p {
                    i
                } else {
                    i - 1
                };
                let b = if j < p {
                    j
                } else {
                    j - 1
                };
                if i != p {
                    assert(next[i] == list[a]);
                }
                if j != p {
                    assert(next[j] == list[b]);
                }
                if i == p && b > p {
                    assert(no_higher(stems[list[p] as int], stems[list[b] as int]));
                }
            }
        }
    }
}

// --- texts ------------------------------------------------------------------------------------------

proof fn lemma_scanned_digits(t: Seq<u8>, n: int)
    requires
        0 <= n <= t.len(),
        forall|k: int| 0 <= k < n ==> is_digit(#[trigger] t[k]),
    ensures
        scanned(t, n) == Some((digits_value(t.take(n)) as int, -1int)),
    decreases n,
{
    if n > 0 {
        lemma_scanned_digits(t, n - 1);
        assert(is_digit(t[n - 1]));
        assert(t.take(n).drop_last() =~= t.take(n - 1));
    } else {
        assert(t.take(0) =~= Seq::empty());
    }
}

proof fn lemma_scanned_fraction(a: Seq<u8>, b: Seq<u8>, n: int)
    requires
        0 <= n <= b.len(),
        forall|k: int| 0 <= k < a.len() ==> is_digit(#[trigger] a[k]),
        forall|k: int| 0 <= k < b.len() ==> is_digit(#[trigger] b[k]),
    ensures
        scanned(a + seq![0x2Eu8] + b, a.len() + 1 + n) == Some(
            (digits_value(a + b.take(n)) as int, n),
        ),
    decreases n,
{
    let t = a + seq![0x2Eu8] + b;
    let m = a.len() as int;
    if n > 0 {
        lemma_scanned_fraction(a, b, n - 1);
        assert(t[m + n] == b[n - 1]);
        assert(is_digit(b[n - 1]));
        assert((a + b.take(n)).drop_last() =~= a + b.take(n - 1));
        assert((a + b.take(n)).last() == b[n - 1]);
    } else {
        assert forall|k: int| 0 <= k < m implies is_digit(#[trigger] t[k]) by {
            assert(t[k] == a[k]);
        }
        lemma_scanned_digits(t, m);
        assert(t.take(m) =~= a);
        assert(t[m] == 0x2E);
        assert(a + b.take(0) =~= a);
    }
}

proof fn lemma_no_exponent(t: Seq<u8>, i: int)
    requires
        0 <= i <= t.len(),
        forall|k: int| 0 <= k < t.len() ==> is_digit(#[trigger] t[k]) || t[k] == 0x2E,
    ensures
        exponent_at(t, i) == t.len(),
    decreases t.len() - i,
{
    if i < t.len() {
        assert(is_digit(t[i]) || t[i] == 0x2E);
        lemma_no_exponent(t, i + 1);
    }
}

/// Digits with a point among them spell the number that all of them make,
/// over ten to the power of those behind the point; without a point they
/// spell an integer, and a minus before them makes it negative.
pub proof fn decimal_texts_are_read(a: Seq<u8>, b: Seq<u8>)
    requires
        forall|k: int| 0 <= k < a.len() ==> is_digit(#[trigger] a[k]),
        forall|k: int| 0 <= k < b.len() ==> is_digit(#[trigger] b[k]),
        0 < a.len() <= 12,
        b.len() <= 24,
    ensures
        ({
            let t = a + seq![0x2Eu8] + b;
            let whole = digits_value(a) as int;
            &&& digits_value(a) <= 9_999_999_999_999 ==> Fixed::spelled(a) == Some(
                Fixed { units: (whole * ONE) as i128 },
            )
            &&& digits_value(a) <= 9_999_999_999_999 ==> Fixed::spelled(seq![0x2Du8] + a) == Some(
                Fixed { units: (-(whole * ONE)) as i128 },
            )
            &&& digits_value(a + b) * ten_to(24 - b.len()) <= LIMIT ==> Fixed::spelled(t) == Some(
                Fixed { units: (digits_value(a + b) * ten_to(24 - b.len())) as i128 },
            )
        }),
{
    let t = a + seq![0x2Eu8] + b;
    let n = a.len() as int;
    assert(is_digit(a[0]));
    assert(ten_to(24) == ONE) by {
        reveal_with_fuel(ten_to, 25);
    }
    // without a point
    assert forall|k: int| 0 <= k < a.len() implies is_digit(#[trigger] a[k]) || a[k] == 0x2E by {}
    lemma_no_exponent(a, 0);
    lemma_scanned_digits(a, n);
    assert(a.take(n) =~= a);
    assert(a.skip(n) =~= Seq::empty());
    assert(a.skip(0) =~= a);
    assert((seq![0x2Du8] + a).skip(1) =~= a);
    let whole = digits_value(a) as int;
    if whole <= 9_999_999_999_999 {
        assert(text_units(a) == Some(whole * ONE));
    }
    // with one
    assert forall|k: int| 0 <= k < t.len() implies is_digit(#[trigger] t[k]) || t[k] == 0x2E by {
        if k < n {
            assert(t[k] == a[k]);
        } else if k > n {
            assert(t[k] == b[k - n - 1]);
        }
    }
    assert(t[0] == a[0]);
    lemma_no_exponent(t, 0);
    lemma_scanned_fraction(a, b, b.len() as int);
    assert(b.take(b.len() as int) =~= b);
    assert(t.skip(t.len() as int) =~= Seq::empty());
    assert(t.skip(0) =~= t);
}

} // verus!
