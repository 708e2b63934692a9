//! What merging rests on: a duplicate that goes is, part for part, the object
//! that stays in its place.

use crate::dedup::{
    canonical, flate_payload, flate_payloads, has_duplicates, kept, lemma_canonical,
    lemma_first_same, merged, printed, printed_dict, redirect, remapped, remapped_dict, same_under,
    takes_part, Sameness,
};
use crate::flate::{inflated, MAX_REDEFLATE_BYTES};
use crate::laws::lemma_kept_has;
use crate::lookup::absent;
use crate::names::{names_spelled_1, names_spelled_2, names_spelled_3};
use crate::object::{dict_get, DocumentValue, ObjectId, Value};
use crate::text::{
    all_digits, decimal_digits, decimal_reads_back, digits_value, is_digit, signed_digits,
};
use vstd::prelude::*;
use vstd::string::StringSliceAdditionalSpecFns;

verus! {

// --- numbers as they are written -------------------------------------------------------------

/// The digits spell `n`, without a zero in front.
pub open spec fn spells(t: Seq<u8>, n: int) -> bool {
    &&& t.len() > 0 && all_digits(t)
    &&& digits_value(t) == n
    &&& t.len() > 1 ==> t[0] != 0x30
}

/// The text spells the integer `i`: a minus sign where it is less than zero,
/// and its digits.
pub open spec fn spells_integer(t: Seq<u8>, i: int) -> bool {
    if i < 0 {
        t.len() > 0 && t[0] == 0x2D && spells(t.skip(1), -i)
    } else {
        spells(t, i)
    }
}

proof fn lemma_front_digit(n: nat)
    ensures
        decimal_digits(n).len() > 1 ==> decimal_digits(n)[0] != 0x30,
        n > 0 ==> decimal_digits(n)[0] != 0x30,
    decreases n,
{
    if n >= 10 {
        lemma_front_digit(n / 10);
        decimal_reads_back(n / 10);
        assert(decimal_digits(n)[0] == decimal_digits(n / 10)[0]);
    }
}

proof fn lemma_value_positive(t: Seq<u8>)
    requires
        all_digits(t),
        t.len() > 0,
        t[0] != 0x30,
    ensures
        digits_value(t) > 0,
    decreases t.len(),
{
    assert(is_digit(t[0]) && is_digit(t[t.len() - 1]));
    if t.len() > 1 {
        let init = t.drop_last();
        assert forall|i: int| 0 <= i < init.len() implies is_digit(#[trigger] init[i]) by {
            assert(is_digit(t[i]));
        }
        lemma_value_positive(init);
    } else {
        assert(digits_value(t.drop_last()) >= 0);
    }
}

/// There is one spelling of a number.
proof fn lemma_spelling(t: Seq<u8>, n: nat)
    requires
        spells(t, n as int),
    ensures
        t == decimal_digits(n),
    decreases t.len(),
{
    let init = t.drop_last();
    let d = t.last() - 0x30;
    assert(is_digit(t[t.len() - 1]));
    assert forall|i: int| 0 <= i < init.len() implies is_digit(#[trigger] init[i]) by {
        assert(is_digit(t[i]));
    }
    if t.len() == 1 {
        assert(init =~= Seq::empty());
        assert(digits_value(init) == 0);
        assert(t =~= decimal_digits(n));
    } else {
        assert(init[0] == t[0]);
        lemma_value_positive(init);
        lemma_spelling(init, digits_value(init));
        assert(n / 10 == digits_value(init) && n % 10 == d);
        assert(t =~= init.push(t.last()));
    }
}

/// An integer is written as its digits spell it, and in no other way.
pub proof fn integers_have_one_spelling(t: Seq<u8>, i: int)
    ensures
        t == signed_digits(i) <==> spells_integer(t, i),
{
    let n = if i < 0 {
        (-i) as nat
    } else {
        i as nat
    };
    decimal_reads_back(n);
    lemma_front_digit(n);
    if i < 0 {
        assert(signed_digits(i).skip(1) =~= decimal_digits(n));
        if spells_integer(t, i) {
            lemma_spelling(t.skip(1), n);
            assert(t =~= seq![0x2Du8] + t.skip(1));
        }
    } else if spells_integer(t, i) {
        lemma_spelling(t, n);
    }
}

/// Different integers are written differently.
proof fn lemma_spelling_tells(x: int, y: int)
    requires
        signed_digits(x) == signed_digits(y),
    ensures
        x == y,
{
    let t = signed_digits(x);
    integers_have_one_spelling(t, x);
    integers_have_one_spelling(t, y);
    if x < 0 && y >= 0 {
        assert(is_digit(t[0]));
    }
    if y < 0 && x >= 0 {
        assert(is_digit(t[0]));
    }
}

// --- objects as they are written ---------------------------------------------------------------

/// Two objects are written alike: they are of the same kind and hold the same,
/// part for part and in the same order, but that an integer is alike a real
/// that spells it.
pub open spec fn alike(a: Value, b: Value) -> bool
    decreases a,
{
    match (a, b) {
        (Value::Null, Value::Null) => true,
        (Value::Boolean(x), Value::Boolean(y)) => x == y,
        (Value::Integer(x), Value::Integer(y)) => x == y,
        (Value::Integer(x), Value::Real(t)) => spells_integer(t, x as int),
        (Value::Real(t), Value::Integer(y)) => spells_integer(t, y as int),
        (Value::Real(t), Value::Real(u)) => t == u,
        (Value::Name(x), Value::Name(y)) => x == y,
        (Value::Text(x, h), Value::Text(y, k)) => x == y && h == k,
        (Value::Array(x), Value::Array(y)) => x.len() == y.len() && forall|i: int|
            0 <= i < x.len() ==> alike(#[trigger] x[i], y[i]),
        (Value::Dictionary(x), Value::Dictionary(y)) => alike_entries(x, y),
        (Value::Stream(x), Value::Stream(y)) => alike_entries(x.dict, y.dict) && x.content
            == y.content && x.compressible == y.compressible,
        (Value::Reference(x), Value::Reference(y)) => x == y,
        _ => false,
    }
}

/// Two dictionaries are written alike: they have the same keys in the same
/// order, and under each what is written alike.
pub open spec fn alike_entries(x: Seq<(Seq<u8>, Value)>, y: Seq<(Seq<u8>, Value)>) -> bool
    decreases x,
{
    x.len() == y.len() && forall|i: int|
        0 <= i < x.len() ==> (#[trigger] x[i]).0 == y[i].0 && alike(x[i].1, y[i].1)
}

/// What is compared when duplicates are looked for is what is written.
pub proof fn printed_tells_what_is_alike(a: Value, b: Value)
    ensures
        printed(a) == printed(b) <==> alike(a, b),
    decreases a,
{
    match (a, b) {
        (Value::Integer(x), Value::Integer(y)) => {
            if printed(a) == printed(b) {
                lemma_spelling_tells(x as int, y as int);
            }
        },
        (Value::Integer(x), Value::Real(t)) => {
            integers_have_one_spelling(t, x as int);
        },
        (Value::Real(t), Value::Integer(y)) => {
            integers_have_one_spelling(t, y as int);
        },
        (Value::Array(x), Value::Array(y)) => {
            let p = printed(a)->Array_0;
            let q = printed(b)->Array_0;
            if x.len() == y.len() {
                assert forall|i: int| 0 <= i < x.len() implies (p[i] == q[i]) == alike(
                    #[trigger] x[i],
                    y[i],
                ) by {
                    printed_tells_what_is_alike(x[i], y[i]);
                    assert(p[i] == printed(x[i]) && q[i] == printed(y[i]));
                }
                if alike(a, b) {
                    assert forall|i: int| 0 <= i < p.len() implies p[i] == q[i] by {
                        assert(alike(x[i], y[i]));
                    }
                    assert(p =~= q);
                }
            } else {
                assert(p.len() != q.len());
            }
        },
        (Value::Dictionary(x), Value::Dictionary(y)) => {
            printed_entries_tell_what_is_alike(x, y);
        },
        (Value::Stream(x), Value::Stream(y)) => {
            printed_entries_tell_what_is_alike(x.dict, y.dict);
        },
        _ => {},
    }
}

/// The same for dictionaries.
pub proof fn printed_entries_tell_what_is_alike(
    x: Seq<(Seq<u8>, Value)>,
    y: Seq<(Seq<u8>, Value)>,
)
    ensures
        printed_dict(x) == printed_dict(y) <==> alike_entries(x, y),
    decreases x,
{
    let p = printed_dict(x);
    let q = printed_dict(y);
    if x.len() == y.len() {
        assert forall|i: int| 0 <= i < x.len() implies (p[i] == q[i]) == ((#[trigger] x[i]).0
            == y[i].0 && alike(x[i].1, y[i].1)) by {
            printed_tells_what_is_alike(x[i].1, y[i].1);
            assert(p[i] == (x[i].0, printed(x[i].1)) && q[i] == (y[i].0, printed(y[i].1)));
        }
        if alike_entries(x, y) {
            assert forall|i: int| 0 <= i < p.len() implies p[i] == q[i] by {
                assert(x[i].0 == y[i].0);
            }
            assert(p =~= q);
        }
    } else {
        assert(p.len() != q.len());
    }
}

// --- what goes and what stays --------------------------------------------------------------------

/// A stream that goes is alike the one that stays in its place: its dictionary,
/// every entry of it, and its payload, byte for byte.
pub proof fn merged_stream_is_alike(objects: Seq<(ObjectId, Value)>, i: int)
    requires
        0 <= i < objects.len(),
        canonical(Sameness::Streams, objects, i) != i,
    ensures
        ({
            let c = canonical(Sameness::Streams, objects, i);
            &&& 0 <= c < i
            &&& objects[c].1 is Stream && objects[i].1 is Stream
            &&& alike_entries(objects[c].1->Stream_0.dict, objects[i].1->Stream_0.dict)
            &&& objects[c].1->Stream_0.content == objects[i].1->Stream_0.content
        }),
{
    let k = Sameness::Streams;
    lemma_first_same(k, objects, i, 0);
    let c = canonical(k, objects, i);
    assert(takes_part(k, objects, c) && takes_part(k, objects, i));
    assert(same_under(k, objects, c, i));
    printed_entries_tell_what_is_alike(
        objects[c].1->Stream_0.dict,
        objects[i].1->Stream_0.dict,
    );
}

/// Of two streams that are alike, the later one goes.
pub proof fn repeated_stream_goes(objects: Seq<(ObjectId, Value)>, j: int, i: int)
    requires
        0 <= j < i < objects.len(),
        objects[j].1 is Stream,
        objects[i].1 is Stream,
        alike_entries(objects[j].1->Stream_0.dict, objects[i].1->Stream_0.dict),
        objects[j].1->Stream_0.content == objects[i].1->Stream_0.content,
    ensures
        canonical(Sameness::Streams, objects, i) <= j,
{
    let k = Sameness::Streams;
    printed_entries_tell_what_is_alike(
        objects[j].1->Stream_0.dict,
        objects[i].1->Stream_0.dict,
    );
    assert(takes_part(k, objects, j) && same_under(k, objects, j, i));
    lemma_first_same(k, objects, i, 0);
}

/// The object is a dictionary that says it is a page or a node of pages.
pub open spec fn says_page(v: Value) -> bool {
    &&& v is Dictionary
    &&& dict_get(v->Dictionary_0, "Type".spec_bytes()) == Some(Value::Name("Page".spec_bytes()))
        || dict_get(v->Dictionary_0, "Type".spec_bytes()) == Some(
        Value::Name("Pages".spec_bytes()),
    )
}

/// An object that goes is alike the one that stays in its place, and neither
/// is a stream or a node of the page tree.
pub proof fn merged_object_is_alike(objects: Seq<(ObjectId, Value)>, i: int)
    requires
        0 <= i < objects.len(),
        canonical(Sameness::Objects, objects, i) != i,
    ensures
        ({
            let c = canonical(Sameness::Objects, objects, i);
            &&& 0 <= c < i
            &&& alike(objects[c].1, objects[i].1)
            &&& !(objects[c].1 is Stream) && !(objects[i].1 is Stream)
            &&& !says_page(objects[c].1) && !says_page(objects[i].1)
        }),
{
    let k = Sameness::Objects;
    names_spelled_1();
    names_spelled_2();
    names_spelled_3();
    lemma_first_same(k, objects, i, 0);
    let c = canonical(k, objects, i);
    assert(takes_part(k, objects, c) && takes_part(k, objects, i));
    assert(same_under(k, objects, c, i));
    printed_tells_what_is_alike(objects[c].1, objects[i].1);
}

/// Of two objects that are alike, and are neither streams nor nodes of the page
/// tree, the later one goes.
pub proof fn repeated_object_goes(objects: Seq<(ObjectId, Value)>, j: int, i: int)
    requires
        0 <= j < i < objects.len(),
        alike(objects[j].1, objects[i].1),
        !(objects[j].1 is Stream) && !(objects[i].1 is Stream),
        !says_page(objects[j].1) && !says_page(objects[i].1),
    ensures
        canonical(Sameness::Objects, objects, i) <= j,
{
    let k = Sameness::Objects;
    names_spelled_1();
    names_spelled_2();
    names_spelled_3();
    printed_tells_what_is_alike(objects[j].1, objects[i].1);
    assert(takes_part(k, objects, j) && same_under(k, objects, j, i));
    lemma_first_same(k, objects, i, 0);
}

/// A stream that goes for what it decodes to has one plain Flate filter, as has
/// the one that stays, and both inflate to the same bytes.
pub proof fn merged_payload_is_the_same(objects: Seq<(ObjectId, Value)>, i: int)
    requires
        0 <= i < objects.len(),
        canonical(Sameness::Payloads(flate_payloads(objects)), objects, i) != i,
    ensures
        ({
            let c = canonical(Sameness::Payloads(flate_payloads(objects)), objects, i);
            let limit = MAX_REDEFLATE_BYTES as nat;
            &&& 0 <= c < i
            &&& objects[c].1 is Stream && objects[i].1 is Stream
            &&& inflated(objects[c].1->Stream_0.content, limit) is Some
            &&& inflated(objects[c].1->Stream_0.content, limit) == inflated(
                objects[i].1->Stream_0.content,
                limit,
            )
            &&& absent(objects[c].1->Stream_0.dict, "DecodeParms".spec_bytes())
            &&& absent(objects[i].1->Stream_0.dict, "DecodeParms".spec_bytes())
        }),
{
    names_spelled_1();
    names_spelled_2();
    names_spelled_3();
    let list = flate_payloads(objects);
    let k = Sameness::Payloads(list);
    lemma_first_same(k, objects, i, 0);
    let c = canonical(k, objects, i);
    assert(takes_part(k, objects, c) && takes_part(k, objects, i));
    assert(same_under(k, objects, c, i));
    assert(list[c] == flate_payload(objects, objects[c].1));
    assert(list[i] == flate_payload(objects, objects[i].1));
}

// --- references -----------------------------------------------------------------------------------

/// Two objects are the same but for their references, each of which `f` has
/// led elsewhere.
pub open spec fn same_but_references(
    a: Value,
    b: Value,
    f: spec_fn(ObjectId) -> ObjectId,
) -> bool
    decreases a,
{
    match (a, b) {
        (Value::Reference(x), Value::Reference(y)) => y == f(x),
        (Value::Array(x), Value::Array(y)) => x.len() == y.len() && forall|i: int|
            0 <= i < x.len() ==> same_but_references(#[trigger] x[i], y[i], f),
        (Value::Dictionary(x), Value::Dictionary(y)) => same_entries_but_references(x, y, f),
        (Value::Stream(x), Value::Stream(y)) => same_entries_but_references(x.dict, y.dict, f)
            && x.content == y.content && x.compressible == y.compressible,
        (Value::Reference(_), _) => false,
        (Value::Array(_), _) => false,
        (Value::Dictionary(_), _) => false,
        (Value::Stream(_), _) => false,
        _ => a == b,
    }
}

/// The same for the entries of dictionaries.
pub open spec fn same_entries_but_references(
    x: Seq<(Seq<u8>, Value)>,
    y: Seq<(Seq<u8>, Value)>,
    f: spec_fn(ObjectId) -> ObjectId,
) -> bool
    decreases x,
{
    x.len() == y.len() && forall|i: int|
        0 <= i < x.len() ==> (#[trigger] x[i]).0 == y[i].0 && same_but_references(
            x[i].1,
            y[i].1,
            f,
        )
}

/// Redirecting the references of an object changes nothing else.
pub proof fn redirecting_changes_references_alone(v: Value, f: spec_fn(ObjectId) -> ObjectId)
    ensures
        same_but_references(v, remapped(v, f), f),
    decreases v,
{
    match v {
        Value::Array(x) => {
            let y = remapped(v, f)->Array_0;
            assert forall|i: int| 0 <= i < x.len() implies same_but_references(
                #[trigger] x[i],
                y[i],
                f,
            ) by {
                redirecting_changes_references_alone(x[i], f);
                assert(y[i] == remapped(x[i], f));
            }
        },
        Value::Dictionary(x) => {
            lemma_redirected_entries(x, f);
        },
        Value::Stream(x) => {
            lemma_redirected_entries(x.dict, f);
        },
        _ => {},
    }
}

proof fn lemma_redirected_entries(x: Seq<(Seq<u8>, Value)>, f: spec_fn(ObjectId) -> ObjectId)
    ensures
        same_entries_but_references(x, remapped_dict(x, f), f),
    decreases x,
{
    let y = remapped_dict(x, f);
    assert forall|i: int| 0 <= i < x.len() implies (#[trigger] x[i]).0 == y[i].0
        && same_but_references(x[i].1, y[i].1, f) by {
        redirecting_changes_references_alone(x[i].1, f);
        assert(y[i] == (x[i].0, remapped(x[i].1, f)));
    }
}

proof fn lemma_kept_from(
    k: Sameness,
    objects: Seq<(ObjectId, Value)>,
    f: spec_fn(ObjectId) -> ObjectId,
    n: int,
    p: int,
)
    requires
        0 <= n <= objects.len(),
        0 <= p < kept(k, objects, f, n).len(),
    ensures
        exists|i: int|
            0 <= i < n && canonical(k, objects, i) == i && kept(k, objects, f, n)[p] == (
                (#[trigger] objects[i]).0,
                remapped(objects[i].1, f),
            ),
    decreases n,
{
    if n > 0 {
        let before = kept(k, objects, f, n - 1);
        if p < before.len() {
            lemma_kept_from(k, objects, f, n - 1, p);
        } else {
            assert(kept(k, objects, f, n)[p] == (
                objects[n - 1].0,
                remapped(objects[n - 1].1, f),
            ));
        }
    }
}

/// Merging: whatever an object was, the object that stands for it afterwards
/// is the one that stays in its place, under that one's identifier, with
/// nothing changed but its references; and these, like those of the trailer,
/// each lead to what stays in the place of what they led to. An object that
/// has no duplicate stays, and nothing is added.
pub proof fn merging_leads_to_what_stays(k: Sameness, doc: DocumentValue, i: int)
    requires
        0 <= i < doc.objects.len(),
        has_duplicates(k, doc.objects),
    ensures
        ({
            let objects = doc.objects;
            let f = |id: ObjectId| redirect(k, objects, id);
            let c = canonical(k, objects, i);
            let m = merged(k, doc);
            &&& exists|p: int|
                0 <= p < m.objects.len() && (#[trigger] m.objects[p]).0 == objects[c].0
                    && same_but_references(objects[c].1, m.objects[p].1, f)
            &&& same_entries_but_references(doc.trailer, m.trailer, f)
            &&& forall|p: int|
                0 <= p < m.objects.len() ==> exists|j: int|
                    0 <= j < objects.len() && canonical(k, objects, j) == j && (
                    #[trigger] m.objects[p]).0 == (#[trigger] objects[j]).0
        }),
{
    let objects = doc.objects;
    let f = |id: ObjectId| redirect(k, objects, id);
    let c = canonical(k, objects, i);
    let m = merged(k, doc);
    let n = objects.len() as int;
    lemma_canonical(k, objects, i);
    lemma_kept_has(k, objects, f, n, c);
    let e = (objects[c].0, remapped(objects[c].1, f));
    let p = choose|p: int| 0 <= p < m.objects.len() && m.objects[p] == e;
    assert(m.objects[p] == e);
    redirecting_changes_references_alone(objects[c].1, f);
    lemma_redirected_entries(doc.trailer, f);
    assert forall|p: int| 0 <= p < m.objects.len() implies exists|j: int|
        0 <= j < objects.len() && canonical(k, objects, j) == j && (#[trigger] m.objects[p]).0 == (
        #[trigger] objects[j]).0 by {
        lemma_kept_from(k, objects, f, n, p);
        let j = choose|j: int|
            0 <= j < n && canonical(k, objects, j) == j && kept(k, objects, f, n)[p] == (
                (#[trigger] objects[j]).0,
                remapped(objects[j].1, f),
            );
        assert(m.objects[p].0 == objects[j].0);
    }
}

/// A reference leads, once duplicates are merged, to the object that stays in
/// the place of the one it led to.
pub proof fn redirect_leads_to_what_stays(k: Sameness, objects: Seq<(ObjectId, Value)>, i: int)
    requires
        crate::object::ids_ascend(objects),
        0 <= i < objects.len(),
    ensures
        redirect(k, objects, objects[i].0) == objects[canonical(k, objects, i)].0,
{
    crate::object::lemma_object_index(objects, i);
    let j = crate::object::object_index(objects, objects[i].0)->0;
    if j < i {
        assert(crate::object::id_less(objects[j].0, objects[i].0));
    }
    if i < j {
        assert(crate::object::id_less(objects[i].0, objects[j].0));
    }
}

} // verus!
