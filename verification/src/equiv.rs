//! When two objects mean the same: exact equality of numbers by value,
//! dictionaries whatever their order, and the looser relation under which a
//! re-read content stream is compared.

use crate::bytes::same_bytes;
use crate::object::{dict_get, object_view, Dict, PdfObject, Value};
use crate::pdf::{operation_views, ContentOp, OperationValue};
use crate::text::{all_digits, digits_value, end_of_digits, is_digit, lemma_digits_end};
use vstd::prelude::*;

verus! {

/// The spelling of a zero, of either sign.
pub open spec fn spells_zero(t: Seq<u8>) -> bool {
    t == seq![0x30u8] || t == seq![0x2Du8, 0x30]
}

/// The spelling of what is not a number.
pub open spec fn spells_nan(t: Seq<u8>) -> bool {
    t == seq![0x4Eu8, 0x61, 0x4E]
}

/// Two reals are equal as numbers, given their shortest spellings.
pub open spec fn same_real(a: Seq<u8>, b: Seq<u8>) -> bool {
    (a == b && !spells_nan(a)) || (spells_zero(a) && spells_zero(b))
}

/// `a == b`, as lopdf has it: reals as numbers, dictionaries whatever their
/// order.
pub open spec fn same_value(a: Value, b: Value) -> bool
    decreases a,
{
    match (a, b) {
        (Value::Real(x), Value::Real(y)) => same_real(x, y),
        (Value::Array(x), Value::Array(y)) => x.len() == y.len() && forall|i: int|
            0 <= i < x.len() ==> same_value(#[trigger] x[i], y[i]),
        (Value::Dictionary(x), Value::Dictionary(y)) => same_entries(x, y),
        (Value::Stream(x), Value::Stream(y)) => same_entries(x.dict, y.dict) && x.content
            == y.content && x.compressible == y.compressible,
        _ => a == b,
    }
}

/// Each entry of `a` stands in `b`, and there are as many.
pub open spec fn same_entries(a: Seq<(Seq<u8>, Value)>, b: Seq<(Seq<u8>, Value)>) -> bool
    decreases a,
{
    a.len() == b.len() && forall|i: int|
        0 <= i < a.len() ==> match dict_get(b, (#[trigger] a[i]).0) {
            Some(w) => same_value(a[i].1, w),
            None => false,
        }
}

/// Whether a spelling is that of a zero.
fn is_zero(t: &[u8]) -> (r: bool)
    ensures
        r == spells_zero(t@),
{
    if t.len() == 1 && t[0] == 0x30 {
        proof {
            assert(t@ =~= seq![0x30u8]);
        }
        true
    } else if t.len() == 2 && t[0] == 0x2D && t[1] == 0x30 {
        proof {
            assert(t@ =~= seq![0x2Du8, 0x30]);
        }
        true
    } else {
        false
    }
}

/// Whether a spelling is that of what is not a number.
fn is_nan(t: &[u8]) -> (r: bool)
    ensures
        r == spells_nan(t@),
{
    let r = t.len() == 3 && t[0] == 0x4E && t[1] == 0x61 && t[2] == 0x4E;
    proof {
        if r {
            assert(t@ =~= seq![0x4Eu8, 0x61, 0x4E]);
        }
    }
    r
}

/// Whether two reals are equal as numbers.
pub fn reals_equal(a: &[u8], b: &[u8]) -> (r: bool)
    ensures
        r == same_real(a@, b@),
{
    (same_bytes(a, b) && !is_nan(a)) || (is_zero(a) && is_zero(b))
}

/// Whether two objects are equal.
pub fn objects_equal(a: &PdfObject, b: &PdfObject) -> (r: bool)
    ensures
        r == same_value(a@, b@),
    decreases a,
{
    match (a, b) {
        (PdfObject::Real(x), PdfObject::Real(y)) => reals_equal(x.as_slice(), y.as_slice()),
        (PdfObject::Array(x), PdfObject::Array(y)) => {
            if x.len() != y.len() {
                return false;
            }
            let mut i: usize = 0;
            while i < x.len()
                invariant
                    i <= x@.len(),
                    x@.len() == y@.len(),
                    *a == PdfObject::Array(*x),
                    *b == PdfObject::Array(*y),
                    a@->Array_0.len() == x@.len(),
                    b@->Array_0.len() == y@.len(),
                    forall|k: int|
                        0 <= k < i ==> same_value(#[trigger] a@->Array_0[k], b@->Array_0[k]),
                decreases x@.len() - i,
            {
                proof {
                    assert(decreases_to!(*a => a->Array_0));
                    assert(decreases_to!(x => x[i as int]));
                    assert(a@->Array_0[i as int] == object_view(x@[i as int]));
                    assert(b@->Array_0[i as int] == object_view(y@[i as int]));
                }
                if !objects_equal(&x[i], &y[i]) {
                    return false;
                }
                i += 1;
            }
            true
        },
        (PdfObject::Dictionary(x), PdfObject::Dictionary(y)) => dicts_equal(x, y),
        (PdfObject::Stream(x), PdfObject::Stream(y)) => same_bytes(
            x.content.as_slice(),
            y.content.as_slice(),
        ) && x.compressible == y.compressible && dicts_equal(&x.dict, &y.dict),
        _ => crate::object::same_object(a, b),
    }
}

/// Whether two dictionaries are equal, whatever their order.
pub fn dicts_equal(a: &Dict, b: &Dict) -> (r: bool)
    ensures
        r == same_entries(a@, b@),
    decreases a,
{
    if a.entries.len() != b.entries.len() {
        return false;
    }
    let mut i: usize = 0;
    while i < a.entries.len()
        invariant
            i <= a.entries@.len(),
            a@.len() == b@.len() == a.entries@.len(),
            forall|k: int|
                0 <= k < i ==> match dict_get(b@, (#[trigger] a@[k]).0) {
                    Some(w) => same_value(a@[k].1, w),
                    None => false,
                },
        decreases a.entries@.len() - i,
    {
        proof {
            assert(a@[i as int] == (
                a.entries@[i as int].key@,
                object_view(a.entries@[i as int].value),
            ));
            assert(decreases_to!(a.entries => a.entries[i as int]));
        }
        let same = match b.get(a.entries[i].key.as_slice()) {
            Some(w) => objects_equal(&a.entries[i].value, w),
            None => false,
        };
        if !same {
            return false;
        }
        i += 1;
    }
    true
}

// --- integers against reals ---------------------------------------------------------

/// The number of binary digits of `n`.
pub open spec fn bit_length(n: nat) -> nat
    decreases n,
{
    if n == 0 {
        0
    } else {
        1 + bit_length(n / 2)
    }
}

/// `n` rounded to twenty-four binary digits, to the nearest, ties to even:
/// the single-precision value of `n`.
pub open spec fn single_precision(n: nat) -> nat
    decreases n,
{
    if n < 0x100_0000 {
        n
    } else {
        let unit = vstd::arithmetic::power2::pow2((bit_length(n) - 24) as nat);
        let q = n / unit;
        let rest = n % unit;
        if 2 * rest > unit || (2 * rest == unit && q % 2 == 1) {
            (q + 1) * unit
        } else {
            q * unit
        }
    }
}

/// The integer that a spelling of a real spells, without its sign: digits
/// only, and less than 2^64, above which no 64-bit integer rounds.
pub open spec fn spelled_integer(t: Seq<u8>) -> Option<nat> {
    let body = if t.len() > 0 && t[0] == 0x2D {
        t.skip(1)
    } else {
        t
    };
    if body.len() > 0 && all_digits(body) && digits_value(body) <= 0xFFFF_FFFF_FFFF_FFFF {
        Some(digits_value(body))
    } else {
        None
    }
}

/// The integer `i`, taken in single precision, is the real spelled `t`.
pub open spec fn integer_is_real(i: i64, t: Seq<u8>) -> bool {
    match spelled_integer(t) {
        None => false,
        Some(n) => {
            let size = if i < 0 {
                -i
            } else {
                i as int
            };
            &&& single_precision(size as nat) == single_precision(n)
            &&& (n == 0 || (i < 0) == (t[0] == 0x2D))
        },
    }
}

/// The single-precision value of `n`.
fn round_single(n: u64) -> (r: u128)
    ensures
        r == single_precision(n as nat),
{
    if n < 0x100_0000 {
        return n as u128;
    }
    let mut unit: u64 = 1;
    let mut q: u64 = n;
    let ghost mut e: nat = 0;
    proof {
        vstd::arithmetic::power2::lemma2_to64();
    }
    while q >= 0x100_0000
        invariant
            unit == vstd::arithmetic::power2::pow2(e),
            unit >= 1,
            e + bit_length(q as nat) == bit_length(n as nat),
            q >= 0x80_0000,
            q == n / unit,
            unit * q <= n,
            n < unit * (q + 1),
        decreases q,
    {
        proof {
            vstd::arithmetic::power2::lemma_pow2_unfold((e + 1) as nat);
            vstd::arithmetic::div_mod::lemma_div_denominator(n as int, unit as int, 2);
            let half: int = q as int / 2;
            assert(2 * unit * half <= unit * q) by (nonlinear_arith)
                requires
                    2 * half <= q,
                    unit >= 1,
            ;
            assert(unit * (q + 1) <= 2 * unit * (half + 1)) by (nonlinear_arith)
                requires
                    q + 1 <= 2 * (half + 1),
                    unit >= 1,
            ;
            assert(2 * unit <= 2 * unit * half) by (nonlinear_arith)
                requires
                    half >= 1,
                    unit >= 1,
            ;
            assert(unit * 2 == 2 * unit);
            e = e + 1;
        }
        q = q / 2;
        unit = unit * 2;
    }
    proof {
        lemma_bit_length_24(q as nat);
        assert(e == bit_length(n as nat) - 24);
        vstd::arithmetic::div_mod::lemma_fundamental_div_mod(n as int, unit as int);
        assert(n as int % unit as int == n - unit * q);
    }
    let rest: u64 = n - unit * q;
    let up = rest > unit - rest || (rest == unit - rest && q % 2 == 1);
    proof {
        assert(rest < unit) by {
            assert(unit * (q + 1) == unit * q + unit) by (nonlinear_arith);
        }
        assert((q + 1) * unit == unit * q + unit) by (nonlinear_arith);
        assert(q * unit == unit * q) by (nonlinear_arith);
    }
    let base: u128 = (n - rest) as u128;
    if up {
        base + unit as u128
    } else {
        base
    }
}

/// Numbers from 2^23 to 2^24 have twenty-four binary digits.
proof fn lemma_bit_length_24(n: nat)
    requires
        0x80_0000 <= n < 0x100_0000,
    ensures
        bit_length(n) == 24,
{
    vstd::arithmetic::power2::lemma2_to64();
    lemma_bit_length_range(n, 24);
}

proof fn lemma_bit_length_range(n: nat, k: nat)
    requires
        k > 0,
        vstd::arithmetic::power2::pow2((k - 1) as nat) <= n < vstd::arithmetic::power2::pow2(k),
    ensures
        bit_length(n) == k,
    decreases k,
{
    vstd::arithmetic::power2::lemma_pow2_unfold(k);
    vstd::arithmetic::power2::lemma2_to64();
    if k > 1 {
        vstd::arithmetic::power2::lemma_pow2_unfold((k - 1) as nat);
        lemma_bit_length_range(n / 2, (k - 1) as nat);
    } else {
        assert(n == 1);
        assert(bit_length(0) == 0);
        assert(bit_length(1) == 1 + bit_length(0));
    }
}

/// Reads the integer that a spelling of a real spells, without its sign.
fn read_spelled_integer(t: &[u8]) -> (r: Option<u64>)
    ensures
        match r {
            Some(n) => spelled_integer(t@) == Some(n as nat),
            None => spelled_integer(t@) is None,
        },
{
    let from: usize = if t.len() > 0 && t[0] == 0x2D {
        1
    } else {
        0
    };
    let ghost body = if t@.len() > 0 && t@[0] == 0x2D {
        t@.skip(1)
    } else {
        t@
    };
    proof {
        assert(t@.subrange(from as int, t@.len() as int) =~= body);
    }
    let end: usize = end_of_digits(t, from);
    if from == t.len() || end != t.len() {
        proof {
            if from < t@.len() {
                lemma_digits_end(t@, from as int);
                assert(body[end - from] == t@[end as int]);
            }
        }
        return None;
    }
    proof {
        assert forall|k: int| 0 <= k < body.len() implies is_digit(#[trigger] body[k]) by {
            assert(body[k] == t@[from + k]);
        }
    }
    crate::text::parse_digits(t, from, end, 0xFFFF_FFFF_FFFF_FFFF)
}

/// Whether an integer, taken in single precision, is a real.
pub fn integer_equals_real(i: i64, t: &[u8]) -> (r: bool)
    ensures
        r == integer_is_real(i, t@),
{
    match read_spelled_integer(t) {
        None => false,
        Some(n) => {
            let size: u64 = if i == i64::MIN {
                0x8000_0000_0000_0000
            } else if i < 0 {
                (-i) as u64
            } else {
                i as u64
            };
            round_single(size) == round_single(n) && (n == 0 || (i < 0) == (t[0] == 0x2D))
        },
    }
}

// --- re-read content --------------------------------------------------------------------

/// Two operands mean the same to a viewer: an integer and a real compare by
/// value, all else is equal.
pub open spec fn equivalent_value(a: Value, b: Value) -> bool
    decreases a,
{
    match (a, b) {
        (Value::Integer(i), Value::Real(t)) => integer_is_real(i, t),
        (Value::Real(t), Value::Integer(i)) => integer_is_real(i, t),
        (Value::Array(x), Value::Array(y)) => x.len() == y.len() && forall|i: int|
            0 <= i < x.len() ==> equivalent_value(#[trigger] x[i], y[i]),
        (Value::Dictionary(x), Value::Dictionary(y)) => x.len() == y.len() && forall|i: int|
            0 <= i < x.len() ==> match dict_get(y, (#[trigger] x[i]).0) {
                Some(w) => equivalent_value(x[i].1, w),
                None => false,
            },
        _ => same_value(a, b),
    }
}

/// Semantic equality for re-read content operands.
///
/// Plain equality is too strict for one deliberate case: a real that is a
/// whole number is written without a point and reads back as an integer. The
/// number that a viewer computes is the same, so an integer and a real
/// compare by value. Everything else has to match exactly.
pub fn objects_equivalent(a: &PdfObject, b: &PdfObject) -> (r: bool)
    ensures
        r == equivalent_value(a@, b@),
    decreases a,
{
    match (a, b) {
        (PdfObject::Integer(i), PdfObject::Real(t)) => integer_equals_real(*i, t.as_slice()),
        (PdfObject::Real(t), PdfObject::Integer(i)) => integer_equals_real(*i, t.as_slice()),
        (PdfObject::Array(x), PdfObject::Array(y)) => {
            if x.len() != y.len() {
                return false;
            }
            let mut i: usize = 0;
            while i < x.len()
                invariant
                    i <= x@.len(),
                    x@.len() == y@.len(),
                    *a == PdfObject::Array(*x),
                    *b == PdfObject::Array(*y),
                    a@->Array_0.len() == x@.len(),
                    b@->Array_0.len() == y@.len(),
                    forall|k: int|
                        0 <= k < i ==> equivalent_value(#[trigger] a@->Array_0[k], b@->Array_0[k]),
                decreases x@.len() - i,
            {
                proof {
                    assert(decreases_to!(*a => a->Array_0));
                    assert(decreases_to!(x => x[i as int]));
                    assert(a@->Array_0[i as int] == object_view(x@[i as int]));
                    assert(b@->Array_0[i as int] == object_view(y@[i as int]));
                }
                if !objects_equivalent(&x[i], &y[i]) {
                    return false;
                }
                i += 1;
            }
            true
        },
        (PdfObject::Dictionary(x), PdfObject::Dictionary(y)) => {
            if x.entries.len() != y.entries.len() {
                return false;
            }
            let mut i: usize = 0;
            while i < x.entries.len()
                invariant
                    i <= x.entries@.len(),
                    *a == PdfObject::Dictionary(*x),
                    *b == PdfObject::Dictionary(*y),
                    x@.len() == y@.len() == x.entries@.len(),
                    forall|k: int|
                        0 <= k < i ==> match dict_get(y@, (#[trigger] x@[k]).0) {
                            Some(w) => equivalent_value(x@[k].1, w),
                            None => false,
                        },
                decreases x.entries@.len() - i,
            {
                proof {
                    assert(x@[i as int] == (
                        x.entries@[i as int].key@,
                        object_view(x.entries@[i as int].value),
                    ));
                    assert(decreases_to!(*a => a->Dictionary_0));
                    assert(decreases_to!(x.entries => x.entries[i as int]));
                }
                let same = match y.get(x.entries[i].key.as_slice()) {
                    Some(w) => objects_equivalent(&x.entries[i].value, w),
                    None => false,
                };
                if !same {
                    return false;
                }
                i += 1;
            }
            true
        },
        _ => objects_equal(a, b),
    }
}

/// Two operations mean the same.
pub open spec fn equivalent_operation(a: OperationValue, b: OperationValue) -> bool {
    &&& a.operator == b.operator
    &&& a.operands.len() == b.operands.len()
    &&& forall|i: int|
        0 <= i < a.operands.len() ==> equivalent_value(#[trigger] a.operands[i], b.operands[i])
}

/// Two content streams mean the same, operation by operation.
pub open spec fn equivalent_operations(a: Seq<OperationValue>, b: Seq<OperationValue>) -> bool {
    a.len() == b.len() && forall|i: int|
        0 <= i < a.len() ==> equivalent_operation(#[trigger] a[i], b[i])
}

/// Whether two operations mean the same.
fn operation_equivalent(a: &ContentOp, b: &ContentOp) -> (r: bool)
    ensures
        r == equivalent_operation(a@, b@),
{
    if !same_bytes(a.operator.as_slice(), b.operator.as_slice()) || a.operands.len()
        != b.operands.len() {
        return false;
    }
    let mut i: usize = 0;
    while i < a.operands.len()
        invariant
            i <= a.operands@.len(),
            a.operands@.len() == b.operands@.len(),
            forall|k: int|
                0 <= k < i ==> equivalent_value(#[trigger] a@.operands[k], b@.operands[k]),
        decreases a.operands@.len() - i,
    {
        proof {
            assert(a@.operands[i as int] == object_view(a.operands@[i as int]));
            assert(b@.operands[i as int] == object_view(b.operands@[i as int]));
        }
        if !objects_equivalent(&a.operands[i], &b.operands[i]) {
            return false;
        }
        i += 1;
    }
    true
}

/// Whether two content streams mean the same, operation by operation.
pub fn operations_equivalent(a: &Vec<ContentOp>, b: &Vec<ContentOp>) -> (r: bool)
    ensures
        r == equivalent_operations(operation_views(a@), operation_views(b@)),
{
    if a.len() != b.len() {
        return false;
    }
    let mut i: usize = 0;
    while i < a.len()
        invariant
            i <= a@.len(),
            a@.len() == b@.len(),
            forall|k: int|
                0 <= k < i ==> equivalent_operation(
                    #[trigger] operation_views(a@)[k],
                    operation_views(b@)[k],
                ),
        decreases a@.len() - i,
    {
        if !operation_equivalent(&a[i], &b[i]) {
            proof {
                assert(operation_views(a@)[i as int] == a@[i as int]@);
            }
            return false;
        }
        i += 1;
    }
    true
}

} // verus!
