//! Hints of a font under their names, and under the operators that they are
//! written with.

use crate::type1::cff::{
    array_entry, delta_bytes, dict_op_bytes, flag_entry, int_bytes, nibbles_from, number_bytes,
    number_entry, private_bytes, scale_bytes, snap_bytes, zone_bytes,
};
use crate::type1::emit::cat;
use crate::type1::number::Number;
use crate::type1::parse::{no_hints, with_array, with_number, HintsValue};
use vstd::prelude::*;
use vstd::string::StringSliceAdditionalSpecFns;

verus! {

proof fn lemma_cat_nothing(x: Option<Seq<u8>>)
    ensures
        cat(Some(Seq::empty()), x) == x,
        cat(x, Some(Seq::empty())) == x,
{
    if x is Some {
        assert(Seq::<u8>::empty() + x->0 =~= x->0);
        assert(x->0 + Seq::<u8>::empty() =~= x->0);
    }
}

proof fn lemma_nothing<N: Number>()
    ensures
        zone_bytes(no_hints::<N>()) == Some(Seq::<u8>::empty()),
        scale_bytes(no_hints::<N>()) == Some(Seq::<u8>::empty()),
        snap_bytes(no_hints::<N>()) == Some(Seq::<u8>::empty()),
{
    lemma_cat_nothing(Some(Seq::empty()));
}

/// The part of a private dictionary that tells the widths: the default one
/// (20) and the nominal one (21).
pub open spec fn widths_part<N: Number>(default_width: N, nominal_width: N) -> Option<Seq<u8>> {
    cat(
        cat(number_bytes(default_width), Some(seq![20u8])),
        cat(number_bytes(nominal_width), Some(seq![21u8])),
    )
}

proof fn lemma_with_widths<N: Number>(
    h: HintsValue<N>,
    part: Option<Seq<u8>>,
    default_width: N,
    nominal_width: N,
)
    requires
        cat(cat(zone_bytes(h), scale_bytes(h)), snap_bytes(h)) == part,
    ensures
        private_bytes(h, default_width, nominal_width) == cat(
            part,
            widths_part(default_width, nominal_width),
        ),
{
    let a = number_entry(Some(default_width), 20);
    let b = number_entry(Some(nominal_width), 21);
    if part is Some && a is Some && b is Some {
        assert(part->0 + a->0 + b->0 =~= part->0 + (a->0 + b->0));
    }
}

proof fn lemma_keys_differ()
    ensures
        "BlueValues".spec_bytes() != "OtherBlues".spec_bytes(),
        "BlueValues".spec_bytes().len() == 10,
        "OtherBlues".spec_bytes().len() == 10,
        "FamilyBlues".spec_bytes().len() == 11,
        "FamilyOtherBlues".spec_bytes().len() == 16,
        "StemSnapH".spec_bytes().len() == 9,
        "StemSnapV".spec_bytes().len() == 9,
        "StemSnapH".spec_bytes() != "StemSnapV".spec_bytes(),
        "StdHW".spec_bytes().len() == 5,
        "StdVW".spec_bytes().len() == 5,
        "StdHW".spec_bytes() != "StdVW".spec_bytes(),
{
    reveal_strlit("BlueValues");
    reveal_strlit("OtherBlues");
    reveal_strlit("FamilyBlues");
    reveal_strlit("FamilyOtherBlues");
    reveal_strlit("StemSnapH");
    reveal_strlit("StemSnapV");
    reveal_strlit("StdHW");
    reveal_strlit("StdVW");
    assert("BlueValues".is_ascii() && "OtherBlues".is_ascii() && "FamilyBlues".is_ascii());
    assert("FamilyOtherBlues".is_ascii() && "StemSnapH".is_ascii() && "StemSnapV".is_ascii());
    assert("StdHW".is_ascii() && "StdVW".is_ascii());
    assert("BlueValues".spec_bytes()[0] == 0x42 && "OtherBlues".spec_bytes()[0] == 0x4F);
    assert("StemSnapH".spec_bytes()[8] == 0x48 && "StemSnapV".spec_bytes()[8] == 0x56);
    assert("StdHW".spec_bytes()[3] == 0x48 && "StdVW".spec_bytes()[3] == 0x56);
}

/// An array of hints that has this name is written as the distances of its
/// numbers under this operator, and nothing else is but the widths.
pub open spec fn array_goes_to<N: Number>(
    key: Seq<u8>,
    op: Seq<u8>,
    v: Seq<N>,
    default_width: N,
    nominal_width: N,
) -> bool {
    private_bytes(with_array(no_hints(), key, v), default_width, nominal_width) == cat(
        cat(delta_bytes(v, v.len() as int), Some(op)),
        widths_part(default_width, nominal_width),
    )
}

proof fn lemma_zone<N: Number>(key: Seq<u8>, op: u16, v: Seq<N>, default_width: N, nominal_width: N)
    requires
        v.len() > 0,
        ({
            ||| key == "BlueValues".spec_bytes() && op == 6
            ||| key == "OtherBlues".spec_bytes() && op == 7
            ||| key == "FamilyBlues".spec_bytes() && op == 8
            ||| key == "FamilyOtherBlues".spec_bytes() && op == 9
            ||| key == "StemSnapH".spec_bytes() && op == 0x0C0C
            ||| key == "StemSnapV".spec_bytes() && op == 0x0C0D
        }),
    ensures
        array_goes_to(key, dict_op_bytes(op), v, default_width, nominal_width),
{
    lemma_keys_differ();
    let h = with_array(no_hints::<N>(), key, v);
    let e = array_entry(v, op);
    lemma_nothing::<N>();
    lemma_cat_nothing(e);
    lemma_cat_nothing(Some(Seq::empty()));
    lemma_cat_nothing(cat(delta_bytes(v, v.len() as int), Some(dict_op_bytes(op))));
    assert(cat(cat(zone_bytes(h), scale_bytes(h)), snap_bytes(h)) == e);
    lemma_with_widths(h, e, default_width, nominal_width);
}

/// Each array of hints is written under its own operator: `/BlueValues` under
/// 6, `/OtherBlues` under 7, `/FamilyBlues` under 8, `/FamilyOtherBlues` under
/// 9, `/StemSnapH` under 12 12 and `/StemSnapV` under 12 13.
pub proof fn zones_have_their_operators<N: Number>(v: Seq<N>, default_width: N, nominal_width: N)
    requires
        v.len() > 0,
    ensures
        array_goes_to("BlueValues".spec_bytes(), seq![6u8], v, default_width, nominal_width),
        array_goes_to("OtherBlues".spec_bytes(), seq![7u8], v, default_width, nominal_width),
        array_goes_to("FamilyBlues".spec_bytes(), seq![8u8], v, default_width, nominal_width),
        array_goes_to("FamilyOtherBlues".spec_bytes(), seq![9u8], v, default_width, nominal_width),
        array_goes_to("StemSnapH".spec_bytes(), seq![12u8, 12], v, default_width, nominal_width),
        array_goes_to("StemSnapV".spec_bytes(), seq![12u8, 13], v, default_width, nominal_width),
{
    lemma_zone("BlueValues".spec_bytes(), 6, v, default_width, nominal_width);
    lemma_zone("OtherBlues".spec_bytes(), 7, v, default_width, nominal_width);
    lemma_zone("FamilyBlues".spec_bytes(), 8, v, default_width, nominal_width);
    lemma_zone("FamilyOtherBlues".spec_bytes(), 9, v, default_width, nominal_width);
    lemma_zone("StemSnapH".spec_bytes(), 0x0C0C, v, default_width, nominal_width);
    lemma_zone("StemSnapV".spec_bytes(), 0x0C0D, v, default_width, nominal_width);
    assert(dict_op_bytes(0x0C0C) =~= seq![12u8, 12]);
    assert(dict_op_bytes(0x0C0D) =~= seq![12u8, 13]);
}

/// The standard widths of stems are written under 10, `/StdHW`, and 11,
/// `/StdVW`.
pub proof fn stem_widths_have_their_operators<N: Number>(x: N, default_width: N, nominal_width: N)
    ensures
        private_bytes(
            with_array(no_hints(), "StdHW".spec_bytes(), seq![x]),
            default_width,
            nominal_width,
        ) == cat(
            cat(number_bytes(x), Some(seq![10u8])),
            widths_part(default_width, nominal_width),
        ),
        private_bytes(
            with_array(no_hints(), "StdVW".spec_bytes(), seq![x]),
            default_width,
            nominal_width,
        ) == cat(
            cat(number_bytes(x), Some(seq![11u8])),
            widths_part(default_width, nominal_width),
        ),
{
    lemma_keys_differ();
    lemma_nothing::<N>();
    let h = with_array(no_hints::<N>(), "StdHW".spec_bytes(), seq![x]);
    let v = with_array(no_hints::<N>(), "StdVW".spec_bytes(), seq![x]);
    let a = number_entry(Some(x), 10);
    let b = number_entry(Some(x), 11);
    lemma_cat_nothing(Some(Seq::empty()));
    lemma_cat_nothing(a);
    lemma_cat_nothing(b);
    assert(cat(cat(zone_bytes(h), scale_bytes(h)), snap_bytes(h)) == a);
    assert(cat(cat(zone_bytes(v), scale_bytes(v)), snap_bytes(v)) == b);
    lemma_with_widths(h, a, default_width, nominal_width);
    lemma_with_widths(v, b, default_width, nominal_width);
}

/// A number of an array is written as its distance from the one before it,
/// and the first as its distance from zero.
pub proof fn arrays_are_written_as_distances<N: Number>(v: Seq<N>, x: N)
    ensures
        delta_bytes(seq![x], 1) == number_bytes(x.difference(N::integer(0))),
        v.len() > 0 ==> delta_bytes(v.push(x), v.len() as int + 1) == cat(
            delta_bytes(v, v.len() as int),
            number_bytes(x.difference(v.last())),
        ),
{
    reveal_with_fuel(delta_bytes, 2);
    lemma_cat_nothing(number_bytes(x.difference(N::integer(0))));
    if v.len() > 0 {
        lemma_same_deltas(v, v.push(x), v.len() as int);
    }
}

proof fn lemma_same_deltas<N: Number>(a: Seq<N>, b: Seq<N>, n: int)
    requires
        n <= a.len(),
        n <= b.len(),
        forall|i: int| 0 <= i < n ==> a[i] == b[i],
    ensures
        delta_bytes(a, n) == delta_bytes(b, n),
    decreases n,
{
    if n > 0 {
        lemma_same_deltas(a, b, n - 1);
    }
}

proof fn lemma_number_keys_differ()
    ensures
        "BlueScale".spec_bytes().len() == 9,
        "BlueShift".spec_bytes().len() == 9,
        "BlueFuzz".spec_bytes().len() == 8,
        "LanguageGroup".spec_bytes().len() == 13,
        "BlueScale".spec_bytes() != "BlueShift".spec_bytes(),
{
    reveal_strlit("BlueScale");
    reveal_strlit("BlueShift");
    reveal_strlit("BlueFuzz");
    reveal_strlit("LanguageGroup");
    assert("BlueScale".is_ascii() && "BlueShift".is_ascii() && "BlueFuzz".is_ascii());
    assert("LanguageGroup".is_ascii());
    assert("BlueScale".spec_bytes()[5] == 0x63 && "BlueShift".spec_bytes()[5] == 0x68);
}

proof fn lemma_number_goes<N: Number>(
    key: Seq<u8>,
    op: u16,
    x: N,
    default_width: N,
    nominal_width: N,
)
    requires
        ({
            ||| key == "BlueScale".spec_bytes() && op == 0x0C09
            ||| key == "BlueShift".spec_bytes() && op == 0x0C0A
            ||| key == "BlueFuzz".spec_bytes() && op == 0x0C0B
            ||| key == "LanguageGroup".spec_bytes() && op == 0x0C11
        }),
    ensures
        private_bytes(with_number(no_hints(), key, Some(x)), default_width, nominal_width) == cat(
            cat(number_bytes(x), Some(dict_op_bytes(op))),
            widths_part(default_width, nominal_width),
        ),
{
    lemma_number_keys_differ();
    lemma_nothing::<N>();
    let h = with_number(no_hints::<N>(), key, Some(x));
    let e = number_entry(Some(x), op);
    lemma_cat_nothing(Some(Seq::empty()));
    lemma_cat_nothing(e);
    assert(cat(cat(zone_bytes(h), scale_bytes(h)), snap_bytes(h)) == e);
    lemma_with_widths(h, e, default_width, nominal_width);
}

/// Each number among the hints is written under its own operator:
/// `/BlueScale` under 12 9, `/BlueShift` under 12 10, `/BlueFuzz` under 12 11
/// and `/LanguageGroup` under 12 17.
pub proof fn numbers_have_their_operators<N: Number>(x: N, default_width: N, nominal_width: N)
    ensures
        private_bytes(
            with_number(no_hints(), "BlueScale".spec_bytes(), Some(x)),
            default_width,
            nominal_width,
        ) == cat(
            cat(number_bytes(x), Some(seq![12u8, 9])),
            widths_part(default_width, nominal_width),
        ),
        private_bytes(
            with_number(no_hints(), "BlueShift".spec_bytes(), Some(x)),
            default_width,
            nominal_width,
        ) == cat(
            cat(number_bytes(x), Some(seq![12u8, 10])),
            widths_part(default_width, nominal_width),
        ),
        private_bytes(
            with_number(no_hints(), "BlueFuzz".spec_bytes(), Some(x)),
            default_width,
            nominal_width,
        ) == cat(
            cat(number_bytes(x), Some(seq![12u8, 11])),
            widths_part(default_width, nominal_width),
        ),
        private_bytes(
            with_number(no_hints(), "LanguageGroup".spec_bytes(), Some(x)),
            default_width,
            nominal_width,
        ) == cat(
            cat(number_bytes(x), Some(seq![12u8, 17])),
            widths_part(default_width, nominal_width),
        ),
{
    lemma_number_goes("BlueScale".spec_bytes(), 0x0C09, x, default_width, nominal_width);
    lemma_number_goes("BlueShift".spec_bytes(), 0x0C0A, x, default_width, nominal_width);
    lemma_number_goes("BlueFuzz".spec_bytes(), 0x0C0B, x, default_width, nominal_width);
    lemma_number_goes("LanguageGroup".spec_bytes(), 0x0C11, x, default_width, nominal_width);
    assert(dict_op_bytes(0x0C09) =~= seq![12u8, 9]);
    assert(dict_op_bytes(0x0C0A) =~= seq![12u8, 10]);
    assert(dict_op_bytes(0x0C0B) =~= seq![12u8, 11]);
    assert(dict_op_bytes(0x0C11) =~= seq![12u8, 17]);
}

/// A font that is to be bold says so with a one under 12 14, and with a zero
/// where it is not.
pub proof fn boldness_has_its_operator<N: Number>(bold: bool, default_width: N, nominal_width: N)
    ensures
        private_bytes(
            (HintsValue { force_bold: Some(bold), ..no_hints() }),
            default_width,
            nominal_width,
        ) == cat(
            Some(
                if bold {
                    seq![140u8, 12, 14]
                } else {
                    seq![139u8, 12, 14]
                },
            ),
            widths_part(default_width, nominal_width),
        ),
{
    lemma_nothing::<N>();
    let h = HintsValue { force_bold: Some(bold), ..no_hints::<N>() };
    let e = Some(flag_entry(Some(bold), 0x0C0E));
    lemma_cat_nothing(Some(Seq::empty()));
    lemma_cat_nothing(e);
    assert(cat(cat(zone_bytes(h), scale_bytes(h)), snap_bytes(h)) == e);
    lemma_with_widths(h, e, default_width, nominal_width);
    assert(int_bytes(1) =~= seq![140u8]);
    assert(int_bytes(0) =~= seq![139u8]);
    assert(dict_op_bytes(0x0C0E) =~= seq![12u8, 14]);
    assert(flag_entry(Some(bold), 0x0C0E) =~= if bold {
        seq![140u8, 12, 14]
    } else {
        seq![139u8, 12, 14]
    });
}

/// A decimal text of digits, points and minus signs is written with one half
/// byte for each: digits as themselves, the point as ten, the minus as
/// fourteen.
pub proof fn decimal_texts_have_their_half_bytes(t: Seq<u8>, i: int, j: int)
    requires
        0 <= i <= t.len(),
        i <= j < t.len(),
        forall|k: int|
            0 <= k < t.len() ==> (0x30 <= #[trigger] t[k] <= 0x39) || t[k] == 0x2E || t[k] == 0x2D,
    ensures
        nibbles_from(t, i) is Some,
        (nibbles_from(t, i)->0).len() == t.len() - i,
        (nibbles_from(t, i)->0)[j - i] == (if t[j] == 0x2E {
            10int
        } else if t[j] == 0x2D {
            14
        } else {
            t[j] - 0x30
        }),
    decreases t.len() - i,
{
    assert((0x30 <= t[i] <= 0x39) || t[i] == 0x2E || t[i] == 0x2D);
    if i + 1 < t.len() {
        let next = if j > i {
            j
        } else {
            i + 1
        };
        decimal_texts_have_their_half_bytes(t, i + 1, next);
        let rest = nibbles_from(t, i + 1)->0;
        let all = nibbles_from(t, i)->0;
        assert(all == seq![all[0]] + rest);
        if j > i {
            assert(all[j - i] == rest[j - i - 1]);
        }
    } else {
        assert(nibbles_from(t, i + 1) == Some(Seq::<u8>::empty()));
    }
}

} // verus!
