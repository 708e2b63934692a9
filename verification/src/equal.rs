//! What equality of objects tells, and what it does not depend on.

use crate::equiv::{
    bit_length, equivalent_operation, equivalent_operations, equivalent_value, integer_is_real,
    same_entries, same_real, same_value, single_precision,
};
use crate::laws::keys_distinct;
use crate::object::{dict_get, dict_index, lemma_dict_index, Value};
use crate::pdf::OperationValue;
use crate::text::{decimal_digits, decimal_reads_back, is_digit};
use vstd::arithmetic::power2::{lemma_pow2_pos, lemma_pow2_unfold, pow2};
use vstd::prelude::*;
use vstd::string::StringSliceAdditionalSpecFns;

verus! {

/// Values without parts of their own: equal ones are the same.
pub open spec fn is_plain(v: Value) -> bool {
    v is Null || v is Boolean || v is Integer || v is Name || v is Text || v is Reference
}

/// Equal values are of one kind. Plain ones are the same, equal arrays are
/// equal item by item, and equal streams have the same payload; what a key
/// leads to in one dictionary it leads to in the other.
pub proof fn equal_values_agree(a: Value, b: Value)
    requires
        same_value(a, b),
    ensures
        is_plain(a) || is_plain(b) ==> a == b,
        a is Real <==> b is Real,
        a is Array <==> b is Array,
        a is Dictionary <==> b is Dictionary,
        a is Stream <==> b is Stream,
        a is Array ==> (a->Array_0).len() == (b->Array_0).len() && forall|i: int|
            0 <= i < (a->Array_0).len() ==> same_value(#[trigger] (a->Array_0)[i], (b->Array_0)[i]),
        a is Stream ==> (a->Stream_0).content == (b->Stream_0).content && same_value(
            Value::Dictionary((a->Stream_0).dict),
            Value::Dictionary((b->Stream_0).dict),
        ),
        a is Dictionary ==> (a->Dictionary_0).len() == (b->Dictionary_0).len() && forall|i: int|
            0 <= i < (a->Dictionary_0).len() ==> {
                let e = #[trigger] (a->Dictionary_0)[i];
                let w = dict_get(b->Dictionary_0, e.0);
                w is Some && same_value(e.1, w->0)
            },
{
    if a is Dictionary {
        let (x, y) = (a->Dictionary_0, b->Dictionary_0);
        assert(same_entries(x, y));
        assert forall|i: int| 0 <= i < (a->Dictionary_0).len() implies {
            let e = #[trigger] (a->Dictionary_0)[i];
            let w = dict_get(b->Dictionary_0, e.0);
            w is Some && same_value(e.1, w->0)
        } by {
            assert(match dict_get(y, x[i].0) {
                Some(w) => same_value(x[i].1, w),
                None => false,
            });
        }
    }
}

/// Reals are equal where they are spelled the same or are both zero, and what
/// is not a number equals nothing.
pub proof fn equal_reals_are_one_number(a: Seq<u8>, b: Seq<u8>)
    ensures
        same_real(a, b) == same_real(b, a),
        a == b && a != "NaN".spec_bytes() ==> same_real(a, b),
        a == "NaN".spec_bytes() ==> !same_real(a, b),
        same_real(a, b) && a != b ==> a.last() == 0x30 && b.last() == 0x30 && a.len() <= 2
            && b.len() <= 2,
{
    reveal_strlit("NaN");
    assert("NaN".is_ascii());
    assert("NaN".spec_bytes() =~= seq![0x4Eu8, 0x61, 0x4E]);
    if a == "NaN".spec_bytes() {
        assert(a.len() == 3);
    }
}

/// The value holds no number that is none, and no dictionary with a key
/// twice.
pub open spec fn proper(v: Value) -> bool
    decreases v,
{
    match v {
        Value::Real(t) => t != "NaN".spec_bytes(),
        Value::Array(items) => forall|i: int|
            0 <= i < items.len() ==> proper(#[trigger] items[i]),
        Value::Dictionary(d) => proper_entries(d),
        Value::Stream(s) => proper_entries(s.dict),
        _ => true,
    }
}

/// The entries of a proper dictionary.
pub open spec fn proper_entries(d: Seq<(Seq<u8>, Value)>) -> bool
    decreases d,
{
    keys_distinct(d) && forall|i: int| 0 <= i < d.len() ==> proper((#[trigger] d[i]).1)
}

/// A proper value equals itself, and is equivalent to itself.
pub proof fn values_equal_themselves(v: Value)
    requires
        proper(v),
    ensures
        same_value(v, v),
        equivalent_value(v, v),
    decreases v, 1int,
{
    match v {
        Value::Real(t) => {
            equal_reals_are_one_number(t, t);
        },
        Value::Array(items) => {
            assert forall|i: int| 0 <= i < items.len() implies same_value(
                #[trigger] items[i],
                items[i],
            ) && equivalent_value(items[i], items[i]) by {
                values_equal_themselves(items[i]);
            }
        },
        Value::Dictionary(d) => {
            lemma_entries_equal(d);
        },
        Value::Stream(s) => {
            lemma_entries_equal(s.dict);
        },
        _ => {},
    }
}

proof fn lemma_entries_equal(d: Seq<(Seq<u8>, Value)>)
    requires
        proper_entries(d),
    ensures
        same_entries(d, d),
        forall|i: int|
            0 <= i < d.len() ==> match dict_get(d, (#[trigger] d[i]).0) {
                Some(w) => equivalent_value(d[i].1, w),
                None => false,
            },
    decreases d, 0int,
{
    assert forall|i: int| 0 <= i < d.len() implies match dict_get(d, (#[trigger] d[i]).0) {
        Some(w) => same_value(d[i].1, w) && equivalent_value(d[i].1, w),
        None => false,
    } by {
        lemma_dict_index(d, d[i].0, 0);
        let k = dict_index(d, d[i].0)->0;
        assert(d[k].0 == d[i].0);
        assert(k == i);
        values_equal_themselves(d[i].1);
    }
}

// --- numbers ------------------------------------------------------------------------------------------

/// An integer in single precision: exact below 2^24, and never further off
/// than its 2^24th part.
pub proof fn single_precision_is_near(n: nat)
    ensures
        n < 0x100_0000 ==> single_precision(n) == n,
        0x100_0000 * (single_precision(n) - n) <= n,
        0x100_0000 * (n - single_precision(n)) <= n,
{
    if n >= 0x100_0000 {
        lemma_bits(n);
        let b = bit_length(n);
        lemma_at_least(n, 24);
        let e = (b - 24) as nat;
        let unit = pow2(e) as int;
        lemma_pow2_pos(e);
        vstd::arithmetic::power2::lemma_pow2_adds(23, e);
        vstd::arithmetic::power2::lemma2_to64();
        assert(pow2(23) == 0x80_0000);
        assert(0x80_0000 * unit <= n);
        let q = n as int / unit;
        let rest = n as int % unit;
        vstd::arithmetic::div_mod::lemma_fundamental_div_mod(n as int, unit);
        assert((q + 1) * unit == q * unit + unit) by (nonlinear_arith);
        assert(unit * q == q * unit) by (nonlinear_arith);
        assert(n == q * unit + rest && 0 <= rest < unit);
    }
}

proof fn lemma_bits(n: nat)
    requires
        n > 0,
    ensures
        bit_length(n) >= 1,
        pow2((bit_length(n) - 1) as nat) <= n < pow2(bit_length(n)),
    decreases n,
{
    vstd::arithmetic::power2::lemma2_to64();
    if n > 1 {
        lemma_bits(n / 2);
        lemma_pow2_unfold(bit_length(n));
        lemma_pow2_unfold((bit_length(n) - 1) as nat);
    } else {
        assert(bit_length(0) == 0);
        assert(bit_length(1) == 1 + bit_length(0));
    }
}

proof fn lemma_at_least(n: nat, k: nat)
    requires
        n >= 0x80_0000,
        k == 24,
    ensures
        bit_length(n) >= k,
{
    lemma_bits(n);
    vstd::arithmetic::power2::lemma2_to64();
    if bit_length(n) < 24 {
        vstd::arithmetic::power2::lemma_pow2_strictly_increases(bit_length(n), 24);
        lemma_pow2_unfold(24);
        assert(pow2(23) == 0x80_0000);
        if bit_length(n) < 23 {
            vstd::arithmetic::power2::lemma_pow2_strictly_increases(bit_length(n), 23);
        }
    }
}

/// An integer of up to 24 bits is the real that is spelled by the digits of
/// the same integer, with the same sign, and no other that is spelled so.
pub proof fn integers_equal_their_spelling(i: i64, n: nat, negative: bool)
    requires
        -0x100_0000 < i < 0x100_0000,
        n < 0x100_0000,
    ensures
        ({
            let digits = decimal_digits(n);
            let text = if negative {
                "-".spec_bytes() + digits
            } else {
                digits
            };
            let value = if negative {
                -(n as int)
            } else {
                n as int
            };
            integer_is_real(i, text) <==> i == value
        }),
{
    reveal_strlit("-");
    assert("-".is_ascii());
    assert("-".spec_bytes() =~= seq![0x2Du8]);
    let digits = decimal_digits(n);
    decimal_reads_back(n);
    let text = if negative {
        "-".spec_bytes() + digits
    } else {
        digits
    };
    if negative {
        assert(text[0] == 0x2D);
        assert(text.skip(1) =~= digits);
    } else {
        assert(is_digit(digits[0]));
        assert(text[0] != 0x2D);
    }
    let size: nat = if i < 0 {
        (-i) as nat
    } else {
        i as nat
    };
    single_precision_is_near(size);
    single_precision_is_near(n);
}

// --- content ------------------------------------------------------------------------------------------

/// Content that is equivalent performs as many operations, with the same
/// operators and as many operands, and differs in nothing but how a number is
/// written: every operand that is a name, a text, a truth value, a reference
/// or an integer on both sides is the same.
pub proof fn equivalent_content_performs_the_same(
    a: Seq<OperationValue>,
    b: Seq<OperationValue>,
    i: int,
    k: int,
)
    requires
        equivalent_operations(a, b),
        0 <= i < a.len(),
        0 <= k < a[i].operands.len(),
    ensures
        a.len() == b.len(),
        a[i].operator == b[i].operator,
        a[i].operands.len() == b[i].operands.len(),
        ({
            let x = a[i].operands[k];
            let y = b[i].operands[k];
            &&& (is_plain(x) || is_plain(y)) && !(x is Integer && y is Real) && !(x is Real
                && y is Integer) ==> x == y
            &&& x is Real && y is Real ==> same_real(x->Real_0, y->Real_0)
            &&& x is Integer && y is Real ==> integer_is_real(x->Integer_0, y->Real_0)
            &&& x is Real && y is Integer ==> integer_is_real(y->Integer_0, x->Real_0)
            &&& x is Array ==> y is Array && (x->Array_0).len() == (y->Array_0).len()
            &&& x is Dictionary ==> y is Dictionary && (x->Dictionary_0).len() == (
            y->Dictionary_0).len()
        }),
{
    assert(equivalent_operation(a[i], b[i]));
    let x = a[i].operands[k];
    let y = b[i].operands[k];
    assert(equivalent_value(x, y));
}

/// Content is equivalent to itself, and what is equivalent is so operation by
/// operation: leaving out the first of each leaves them equivalent.
pub proof fn content_is_compared_operation_by_operation(
    a: Seq<OperationValue>,
    b: Seq<OperationValue>,
)
    requires
        a.len() > 0,
        b.len() > 0,
    ensures
        equivalent_operations(a, b) <==> equivalent_operation(a[0], b[0])
            && equivalent_operations(a.skip(1), b.skip(1)),
        !equivalent_operations(a, Seq::empty()),
        !equivalent_operations(Seq::empty(), b),
{
    let c = a.skip(1);
    let d = b.skip(1);
    if equivalent_operations(a, b) {
        assert forall|i: int| 0 <= i < c.len() implies equivalent_operation(
            #[trigger] c[i],
            d[i],
        ) by {
            assert(equivalent_operation(a[i + 1], b[i + 1]));
        }
        assert(equivalent_operation(a[0], b[0]));
    }
    if equivalent_operation(a[0], b[0]) && equivalent_operations(c, d) {
        assert forall|i: int| 0 <= i < a.len() implies equivalent_operation(
            #[trigger] a[i],
            b[i],
        ) by {
            if i > 0 {
                assert(equivalent_operation(c[i - 1], d[i - 1]));
            }
        }
    }
}

} // verus!
