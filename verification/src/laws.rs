//! What holds of the whole: numbers keep their values, merging keeps what is
//! shown and referred to, and no step makes a stream larger.

use crate::content::{
    fraction_part, is_negative, minified_content, minified_number, number_values, point_at,
    trim_back, trim_front, unsigned, whole_part,
};
use crate::dedup::{
    canonical, flate_payloads, has_duplicates, kept, lemma_canonical, lemma_first_same, page_node,
    redirect, remapped, same_under, takes_part, Sameness,
};
use crate::equiv::equivalent_operations;
use crate::finish::{
    compressed_stream, redeflate_document_outcome, redeflated_document, redeflated_object,
    redeflates_ok, tidy_trailer, with_literals,
};
use crate::flate::{inflated, DeflateBackend, MAX_REDEFLATE_BYTES};
use crate::gray::has_gray_work;
use crate::inline::known_operations_strict;
use crate::jpx::{jpx_outcome, JpxValue};
use crate::load::loaded;
use crate::lookup::lookup;
use crate::minify::{minify_outcome, streams_locked};
use crate::names::{
    DECODE_PARMS, FILTER, LANG, LENGTH, MARK_INFO, PREV, SMASK, STRUCT_TREE_ROOT, XREF_STM,
};
use crate::object::{
    dict_get, dict_index, dict_remove, ids_ascend, lemma_dict_index, object_index, DocumentValue,
    ObjectId, Pdf, StreamValue, Value,
};
use crate::options::{at_most_zero, OptimizeOptions};
use crate::pipeline::{
    all_whole, any_conversion, carried_out, deduped, document_outcome, had_repeats, has_work,
    planned_outcome, plans_ok, rewrite_outcome, smaller, source, untagged, write_outcome,
    PlansValue,
};
use crate::placements::{pages_walked, painted, Placements, PlacementsValue};
use crate::plan::{image_size, usable_mask, ImageOptions};
use crate::raster::{Codec, Raster};
use crate::reals::capture::{
    captured, drifts, file_tokens, first_with, has_bits, has_point, keeps, meaning, replaced_by,
    survives, Reading, ReadingValue,
};
use crate::reals::restore::reads_same;
use crate::replace::{
    may_measure, plan_outcome, present, route_outcome, shrinking, Geometry, ReplacementValue,
    UpdateValue,
};
use crate::text::{all_digits, digits_value, is_digit};
use crate::tree::known_pages;
use vstd::prelude::*;

verus! {

// --- numbers -------------------------------------------------------------------------------------

/// `n` zeros.
pub open spec fn zeros(n: int) -> Seq<u8> {
    Seq::new(n as nat, |i: int| 0x30u8)
}

/// The value of a literal in units of its `k`-th decimal, for a `k` that is
/// no less than its decimals.
pub open spec fn literal_value(s: Seq<u8>, k: int) -> int {
    let v = digits_value(
        whole_part(s) + fraction_part(s) + zeros(k - fraction_part(s).len()),
    ) as int;
    if is_negative(s) {
        -v
    } else {
        v
    }
}

/// The literal is made of a sign, digits and at most one point.
pub open spec fn is_literal(s: Seq<u8>) -> bool {
    all_digits(whole_part(s)) && all_digits(fraction_part(s))
}

proof fn lemma_trim_front(s: Seq<u8>)
    ensures
        trim_front(s).len() <= s.len(),
        s == zeros(s.len() - trim_front(s).len()) + trim_front(s),
        all_digits(s) ==> all_digits(trim_front(s)),
        trim_front(s).len() > 0 ==> trim_front(s)[0] != 0x30,
        trim_front(trim_front(s)) == trim_front(s),
    decreases s.len(),
{
    if s.len() > 0 && s[0] == 0x30 {
        let rest = s.skip(1);
        lemma_trim_front(rest);
        assert(s =~= zeros(s.len() - trim_front(s).len()) + trim_front(s)) by {
            assert(rest =~= zeros(rest.len() - trim_front(rest).len()) + trim_front(rest));
            assert forall|i: int| 0 <= i < s.len() implies s[i] == (zeros(
                s.len() - trim_front(s).len(),
            ) + trim_front(s))[i] by {
                if i > 0 {
                    assert(s[i] == rest[i - 1]);
                }
            }
        }
        assert(all_digits(s) ==> all_digits(rest));
    } else {
        assert(s =~= zeros(0) + s);
    }
}

proof fn lemma_trim_back(s: Seq<u8>)
    ensures
        trim_back(s).len() <= s.len(),
        s == trim_back(s) + zeros(s.len() - trim_back(s).len()),
        all_digits(s) ==> all_digits(trim_back(s)),
        trim_back(trim_back(s)) == trim_back(s),
    decreases s.len(),
{
    if s.len() > 0 && s.last() == 0x30 {
        let rest = s.drop_last();
        lemma_trim_back(rest);
        assert(s =~= trim_back(s) + zeros(s.len() - trim_back(s).len())) by {
            assert forall|i: int| 0 <= i < s.len() implies s[i] == (trim_back(s) + zeros(
                s.len() - trim_back(s).len(),
            ))[i] by {
                if i < rest.len() {
                    assert(s[i] == rest[i]);
                    assert(rest[i] == (trim_back(rest) + zeros(
                        rest.len() - trim_back(rest).len(),
                    ))[i]);
                }
            }
        }
        assert(all_digits(s) ==> all_digits(rest));
    } else {
        assert(s =~= s + zeros(0));
    }
}

proof fn lemma_leading_zeros(n: int, s: Seq<u8>)
    requires
        0 <= n,
    ensures
        digits_value(zeros(n) + s) == digits_value(s),
    decreases n + s.len(),
{
    let t = zeros(n) + s;
    if s.len() > 0 {
        assert(t.drop_last() =~= zeros(n) + s.drop_last());
        assert(t.last() == s.last());
        lemma_leading_zeros(n, s.drop_last());
    } else if n > 0 {
        assert(t.drop_last() =~= zeros(n - 1) + s);
        lemma_leading_zeros(n - 1, s);
        assert(t.last() == 0x30);
    } else {
        assert(t =~= s);
    }
}

/// Without a point before, the first point is where one is put.
proof fn lemma_point_found(s: Seq<u8>, i: int, p: int)
    requires
        0 <= i <= p <= s.len(),
        forall|k: int| i <= k < p ==> #[trigger] s[k] != 0x2E,
        p < s.len() ==> s[p] == 0x2E,
    ensures
        point_at(s, i) == p,
    decreases p - i,
{
    if i < p {
        lemma_point_found(s, i + 1, p);
    }
}

/// The parts of the shortest spelling are the trimmed parts.
proof fn lemma_minified_parts(s: Seq<u8>)
    requires
        is_literal(s),
    ensures
        ({
            let whole = trim_front(whole_part(s));
            let fraction = trim_back(fraction_part(s));
            let m = minified_number(s);
            &&& fraction_part(m) == fraction
            &&& whole_part(m) == if whole.len() == 0 && fraction.len() == 0 {
                seq![0x30u8]
            } else {
                whole
            }
            &&& is_negative(m) == (is_negative(s) && !(whole.len() == 0 && fraction.len() == 0))
        }),
{
    let whole = trim_front(whole_part(s));
    let fraction = trim_back(fraction_part(s));
    let m = minified_number(s);
    lemma_trim_front(whole_part(s));
    lemma_trim_back(fraction_part(s));
    assert(forall|k: int| 0 <= k < whole.len() ==> is_digit(#[trigger] whole[k]));
    let zero = seq![0x30u8];
    if fraction.len() == 0 && whole.len() == 0 {
        assert(unsigned(m) == zero);
        lemma_point_found(zero, 0, 1);
        assert(zero.take(1) =~= zero);
        assert(fraction =~= Seq::empty());
    } else if fraction.len() == 0 {
        assert(unsigned(m) =~= whole) by {
            assert(is_digit(whole[0]));
        }
        lemma_point_found(whole, 0, whole.len() as int);
        assert(whole.take(whole.len() as int) =~= whole);
        assert(fraction =~= Seq::empty());
        assert(is_digit(whole[0]));
    } else {
        let u = whole + seq![0x2Eu8] + fraction;
        assert(unsigned(m) =~= u) by {
            if whole.len() > 0 {
                assert(is_digit(whole[0]));
                assert(u[0] == whole[0]);
            } else {
                assert(u[0] == 0x2E);
            }
        }
        assert forall|k: int| 0 <= k < whole.len() implies #[trigger] u[k] != 0x2E by {
            assert(u[k] == whole[k]);
        }
        lemma_point_found(u, 0, whole.len() as int);
        assert(u.take(whole.len() as int) =~= whole);
        assert(u.skip(whole.len() as int + 1) =~= fraction);
        if whole.len() > 0 {
            assert(is_digit(whole[0]));
        }
    }
}

/// The shortest spelling of a number has the same decimal value.
pub proof fn minifying_keeps_the_value(s: Seq<u8>, k: int)
    requires
        is_literal(s),
        k >= fraction_part(s).len(),
    ensures
        literal_value(minified_number(s), k) == literal_value(s, k),
{
    let w = whole_part(s);
    let f = fraction_part(s);
    let whole = trim_front(w);
    let fraction = trim_back(f);
    let m = minified_number(s);
    lemma_minified_parts(s);
    lemma_trim_front(w);
    lemma_trim_back(f);
    let tail = fraction + zeros(k - fraction.len());
    assert(f + zeros(k - f.len()) =~= tail) by {
        assert(f =~= fraction + zeros(f.len() - fraction.len()));
    }
    assert(w + f + zeros(k - f.len()) =~= zeros(w.len() - whole.len()) + (whole + tail)) by {
        assert(w =~= zeros(w.len() - whole.len()) + whole);
    }
    lemma_leading_zeros(w.len() - whole.len(), whole + tail);
    assert(digits_value(w + f + zeros(k - f.len())) == digits_value(whole + tail));
    if whole.len() == 0 && fraction.len() == 0 {
        assert(whole_part(m) + fraction_part(m) + zeros(k - fraction_part(m).len()) =~= zeros(1) + (
        whole + tail));
        lemma_leading_zeros(1, whole + tail);
        assert(whole + tail =~= zeros(k) + Seq::empty());
        lemma_leading_zeros(k, Seq::empty());
    } else {
        assert(whole_part(m) + fraction_part(m) + zeros(k - fraction_part(m).len()) =~= whole
            + tail);
    }
}

/// The shortest spelling of a number is its own shortest spelling.
pub proof fn minifying_again_changes_nothing(s: Seq<u8>)
    requires
        is_literal(s),
    ensures
        minified_number(minified_number(s)) == minified_number(s),
{
    let whole = trim_front(whole_part(s));
    let fraction = trim_back(fraction_part(s));
    lemma_minified_parts(s);
    lemma_trim_front(whole_part(s));
    lemma_trim_back(fraction_part(s));
    if whole.len() == 0 && fraction.len() == 0 {
        let zero = seq![0x30u8];
        assert(zero.skip(1) =~= Seq::empty());
        reveal_with_fuel(trim_front, 3);
        assert(trim_front(zero) =~= Seq::empty());
        assert(trim_back(fraction) =~= fraction);
    }
}

/// Digits of the same value and number are the same digits.
proof fn lemma_same_digits(a: Seq<u8>, b: Seq<u8>)
    requires
        all_digits(a),
        all_digits(b),
        a.len() == b.len(),
        digits_value(a) == digits_value(b),
    ensures
        a == b,
    decreases a.len(),
{
    if a.len() > 0 {
        assert(is_digit(a[a.len() - 1]) && is_digit(b[b.len() - 1]));
        assert(all_digits(a.drop_last())) by {
            assert forall|i: int| 0 <= i < a.len() - 1 implies is_digit(
                #[trigger] a.drop_last()[i],
            ) by {
                assert(is_digit(a[i]));
            }
        }
        assert(all_digits(b.drop_last())) by {
            assert forall|i: int| 0 <= i < b.len() - 1 implies is_digit(
                #[trigger] b.drop_last()[i],
            ) by {
                assert(is_digit(b[i]));
            }
        }
        lemma_same_digits(a.drop_last(), b.drop_last());
        assert(a =~= a.drop_last().push(a.last()));
        assert(b =~= b.drop_last().push(b.last()));
    } else {
        assert(a =~= b);
    }
}

proof fn lemma_trim_zeros(f: Seq<u8>, n: int)
    requires
        0 <= n,
        f.len() > 0 ==> f.last() != 0x30,
    ensures
        trim_back(f + zeros(n)) == f,
    decreases n,
{
    let s = f + zeros(n);
    if n > 0 {
        assert(s.drop_last() =~= f + zeros(n - 1));
        assert(s.last() == 0x30);
        lemma_trim_zeros(f, n - 1);
    } else {
        assert(s =~= f);
    }
}

proof fn lemma_trimmed_end(s: Seq<u8>)
    ensures
        trim_back(s).len() > 0 ==> trim_back(s).last() != 0x30,
    decreases s.len(),
{
    if s.len() > 0 && s.last() == 0x30 {
        lemma_trimmed_end(s.drop_last());
    }
}

/// The digits of a literal without leading zeros, with `k` decimals.
spec fn significant(s: Seq<u8>, k: int) -> Seq<u8> {
    let fraction = trim_back(fraction_part(s));
    trim_front(whole_part(s)) + (fraction + zeros(k - fraction.len()))
}

proof fn lemma_significant(s: Seq<u8>, k: int)
    requires
        is_literal(s),
        k >= fraction_part(s).len(),
    ensures
        all_digits(significant(s, k)),
        significant(s, k).len() == trim_front(whole_part(s)).len() + k,
        digits_value(significant(s, k)) as int == if is_negative(s) {
            -literal_value(s, k)
        } else {
            literal_value(s, k)
        },
{
    let w = whole_part(s);
    let f = fraction_part(s);
    let whole = trim_front(w);
    let fraction = trim_back(f);
    lemma_trim_front(w);
    lemma_trim_back(f);
    let tail = fraction + zeros(k - fraction.len());
    assert(f + zeros(k - f.len()) =~= tail) by {
        assert(f =~= fraction + zeros(f.len() - fraction.len()));
    }
    assert(w + f + zeros(k - f.len()) =~= zeros(w.len() - whole.len()) + (whole + tail)) by {
        assert(w =~= zeros(w.len() - whole.len()) + whole);
    }
    lemma_leading_zeros(w.len() - whole.len(), whole + tail);
    assert forall|i: int| 0 <= i < significant(s, k).len() implies is_digit(
        #[trigger] significant(s, k)[i],
    ) by {
        if i < whole.len() {
            assert(is_digit(whole[i]));
        } else if i < whole.len() + fraction.len() {
            assert(is_digit(fraction[i - whole.len()]));
        }
    }
}

/// Two literals of the same value, of which one has no fewer digits.
proof fn lemma_same_significant(s: Seq<u8>, t: Seq<u8>, k: int)
    requires
        is_literal(s),
        is_literal(t),
        k >= fraction_part(s).len(),
        k >= fraction_part(t).len(),
        digits_value(significant(s, k)) == digits_value(significant(t, k)),
        trim_front(whole_part(s)).len() <= trim_front(whole_part(t)).len(),
    ensures
        trim_front(whole_part(s)) == trim_front(whole_part(t)),
        trim_back(fraction_part(s)) == trim_back(fraction_part(t)),
{
    let (a, b) = (significant(s, k), significant(t, k));
    let (w, x) = (trim_front(whole_part(s)), trim_front(whole_part(t)));
    let (f, g) = (trim_back(fraction_part(s)), trim_back(fraction_part(t)));
    lemma_significant(s, k);
    lemma_significant(t, k);
    lemma_trim_front(whole_part(t));
    lemma_trim_back(fraction_part(s));
    lemma_trim_back(fraction_part(t));
    let n = x.len() - w.len();
    let padded = zeros(n) + a;
    lemma_leading_zeros(n, a);
    assert(all_digits(padded)) by {
        assert forall|i: int| 0 <= i < padded.len() implies is_digit(#[trigger] padded[i]) by {
            if i >= n {
                assert(is_digit(a[i - n]));
            }
        }
    }
    lemma_same_digits(padded, b);
    if n > 0 {
        assert(padded[0] == 0x30);
        assert(b[0] == x[0]);
    }
    assert(padded =~= a);
    assert(w =~= a.take(w.len() as int));
    assert(x =~= b.take(x.len() as int));
    assert(f + zeros(k - f.len()) =~= a.skip(w.len() as int));
    assert(g + zeros(k - g.len()) =~= b.skip(x.len() as int));
    lemma_trimmed_end(fraction_part(s));
    lemma_trimmed_end(fraction_part(t));
    lemma_trim_zeros(f, k - f.len());
    lemma_trim_zeros(g, k - g.len());
}

/// Literals of the same value have the same shortest spelling.
pub proof fn one_value_has_one_spelling(s: Seq<u8>, t: Seq<u8>, k: int)
    requires
        is_literal(s),
        is_literal(t),
        k >= fraction_part(s).len(),
        k >= fraction_part(t).len(),
        literal_value(s, k) == literal_value(t, k),
    ensures
        minified_number(s) == minified_number(t),
{
    lemma_significant(s, k);
    lemma_significant(t, k);
    if trim_front(whole_part(s)).len() <= trim_front(whole_part(t)).len() {
        lemma_same_significant(s, t, k);
    } else {
        lemma_same_significant(t, s, k);
    }
    if is_negative(s) != is_negative(t) {
        let zero = seq![0x30u8];
        let whole = trim_front(whole_part(s));
        let fraction = trim_back(fraction_part(s));
        assert(digits_value(significant(s, k)) == 0);
        assert(unsigned(zero) == zero);
        lemma_point_found(zero, 0, 1);
        assert(whole_part(zero) =~= zero);
        assert(fraction_part(zero) =~= Seq::empty());
        assert(is_literal(zero));
        lemma_significant(zero, k);
        reveal_with_fuel(trim_front, 3);
        assert(zero.skip(1) =~= Seq::empty());
        assert(trim_front(zero) =~= Seq::empty());
        assert(significant(zero, k) =~= zeros(k));
        lemma_leading_zeros(k, Seq::empty());
        assert(zeros(k) + Seq::<u8>::empty() =~= zeros(k));
        lemma_same_significant(zero, s, k);
        assert(whole.len() == 0 && fraction.len() == 0);
    }
}

/// No spelling of a number is shorter than the one that it gets; in
/// particular, a number never gets longer.
pub proof fn minified_number_is_shortest(s: Seq<u8>, t: Seq<u8>, k: int)
    requires
        is_literal(s),
        is_literal(t),
        t.len() > 0,
        k >= fraction_part(s).len(),
        k >= fraction_part(t).len(),
        literal_value(s, k) == literal_value(t, k),
    ensures
        minified_number(s).len() <= t.len(),
{
    one_value_has_one_spelling(s, t, k);
    lemma_trim_front(whole_part(t));
    lemma_trim_back(fraction_part(t));
    crate::content::lemma_point_at(unsigned(t), 0);
}

/// A content stream that is written anew performs equivalent operations, with
/// the same numbers to the last digit, in fewer bytes.
pub proof fn new_content_means_the_same(decoded: Seq<u8>, plain_stored: int)
    requires
        minified_content(decoded, plain_stored) is Some,
    ensures
        ({
            let text = minified_content(decoded, plain_stored)->0;
            &&& text.len() < plain_stored
            &&& known_operations_strict(decoded) is Some
            &&& known_operations_strict(text) is Some
            &&& equivalent_operations(
                known_operations_strict(decoded)->0,
                known_operations_strict(text)->0,
            )
            &&& number_values(decoded) is Some
            &&& number_values(text) == number_values(decoded)
        }),
{
}

// --- merging ---------------------------------------------------------------------------------------

/// What stays in the place of a duplicate comes before it and is the same,
/// and stays itself.
pub proof fn duplicates_are_the_same(k: Sameness, objects: Seq<(ObjectId, Value)>, i: int)
    requires
        0 <= i < objects.len(),
    ensures
        ({
            let c = canonical(k, objects, i);
            &&& 0 <= c <= i
            &&& canonical(k, objects, c) == c
            &&& c < i ==> takes_part(k, objects, i) && takes_part(k, objects, c) && same_under(
                k,
                objects,
                c,
                i,
            )
        }),
{
    lemma_canonical(k, objects, i);
    if takes_part(k, objects, i) {
        lemma_first_same(k, objects, i, 0);
    }
}

/// A node of the page tree is merged with nothing, by its content or as a
/// stream.
pub proof fn page_nodes_stay(objects: Seq<(ObjectId, Value)>, i: int)
    requires
        0 <= i < objects.len(),
        page_node(objects[i].1),
    ensures
        canonical(Sameness::Objects, objects, i) == i,
        canonical(Sameness::Streams, objects, i) == i,
{
}

pub proof fn lemma_kept_has(
    k: Sameness,
    objects: Seq<(ObjectId, Value)>,
    f: spec_fn(ObjectId) -> ObjectId,
    n: int,
    c: int,
)
    requires
        0 <= c < n <= objects.len(),
        canonical(k, objects, c) == c,
    ensures
        kept(k, objects, f, n).contains((objects[c].0, remapped(objects[c].1, f))),
    decreases n,
{
    let all = kept(k, objects, f, n);
    let e = (objects[c].0, remapped(objects[c].1, f));
    if c == n - 1 {
        assert(all.last() == e);
    } else {
        lemma_kept_has(k, objects, f, n - 1, c);
        let front = kept(k, objects, f, n - 1);
        let i = choose|i: int| 0 <= i < front.len() && front[i] == e;
        assert(all[i] == e);
    }
}

/// A reference to an object that is there leads to one that is kept.
pub proof fn references_stay_alive(k: Sameness, objects: Seq<(ObjectId, Value)>, id: ObjectId)
    requires
        ids_ascend(objects),
        object_index(objects, id) is Some,
    ensures
        ({
            let f = |i: ObjectId| redirect(k, objects, i);
            let left = kept(k, objects, f, objects.len() as int);
            exists|j: int| 0 <= j < left.len() && (#[trigger] left[j]).0 == redirect(k, objects, id)
        }),
{
    let f = |i: ObjectId| redirect(k, objects, i);
    let i = object_index(objects, id)->0;
    let left = kept(k, objects, f, objects.len() as int);
    lemma_canonical(k, objects, i);
    let c = canonical(k, objects, i);
    lemma_kept_has(k, objects, f, objects.len() as int, c);
    let e = (objects[c].0, remapped(objects[c].1, f));
    let j = choose|j: int| 0 <= j < left.len() && left[j] == e;
    assert(left[j].0 == redirect(k, objects, id));
}

// --- what no step does -------------------------------------------------------------------------------

/// Compressing a stream never makes its payload longer, and a stream that has
/// a filter stays as it is.
pub proof fn compressing_never_grows(s: StreamValue)
    ensures
        compressed_stream(s).content.len() <= s.content.len(),
        dict_get(s.dict, FILTER@) is Some ==> compressed_stream(s) == s,
{
}

/// Compressing the streams of a document again keeps every object but the
/// payloads, makes no payload longer, and each decodes to what it did.
pub proof fn redeflating_keeps_documents(
    doc: DocumentValue,
    backend: DeflateBackend,
    r: DocumentValue,
    i: int,
)
    requires
        redeflate_document_outcome(doc, backend, r),
        0 <= i < doc.objects.len(),
    ensures
        r.objects.len() == doc.objects.len(),
        r.objects[i].0 == doc.objects[i].0,
        r.trailer == doc.trailer,
        r.objects[i] == doc.objects[i] || {
            &&& doc.objects[i].1 is Stream
            &&& r.objects[i].1 is Stream
            &&& (r.objects[i].1->Stream_0).content.len() < (
            doc.objects[i].1->Stream_0).content.len()
            &&& inflated((doc.objects[i].1->Stream_0).content, MAX_REDEFLATE_BYTES as nat)
                is Some
            &&& inflated(
                (r.objects[i].1->Stream_0).content,
                (inflated(
                    (doc.objects[i].1->Stream_0).content,
                    MAX_REDEFLATE_BYTES as nat,
                )->0).len(),
            ) == inflated((doc.objects[i].1->Stream_0).content, MAX_REDEFLATE_BYTES as nat)
        },
{
    if r != doc {
        let outs = choose|outs: Seq<Option<Seq<u8>>>| #[trigger]
            redeflates_ok(doc.objects, backend, outs) && r == redeflated_document(doc, outs);
        assert(r.objects[i] == redeflated_object(doc.objects, i, outs[i]));
        if crate::finish::redeflatable(doc.objects, i) && outs[i] is Some {
            let content = (doc.objects[i].1->Stream_0).content;
            crate::flate::redeflating_is_lossless(content, backend, outs[i]->0);
        }
    }
}

/// A planned replacement is of its image and strictly smaller; one that is
/// encoded by a lossy codec for the first time has consent; and a mask that
/// is replaced with it is the one that the image uses alone, of the same size
/// as the image.
pub proof fn replacements_save<
    D: Fn(&[u8], u32, u32) -> Option<Raster>,
    E: Fn(&Raster, u8) -> Option<Vec<u8>>,
    J: Fn(&[u8]) -> Option<Vec<u8>>,
>(
    codec: Codec<D, E, J>,
    objects: Seq<(ObjectId, Value)>,
    s: StreamValue,
    id: ObjectId,
    px: (u32, u32),
    g: Geometry,
    o: ImageOptions,
    r: ReplacementValue,
)
    requires
        route_outcome(codec, objects, s, id, px, g, o, Some(r)),
    ensures
        r.id == id,
        r.dict_update == UpdateValue::FlateToJpeg ==> o.allow_lossy,
        r.smask is None ==> r.content.len() < s.content.len(),
        match r.smask {
            Some(m) => {
                &&& dict_get(s.dict, SMASK@) is Some
                &&& usable_mask(objects, dict_get(s.dict, SMASK@)->0, true) == Some(m.mask_id)
                &&& m.width == r.width && m.height == r.height
                &&& r.width == g.target_w && r.height == g.target_h
            },
            None => true,
        },
        !g.over_resolution ==> r.width == px.0 && r.height == px.1,
        g.over_resolution && !(r.width == px.0 && r.height == px.1) ==> r.width == g.target_w
            && r.height == g.target_h,
{
}

/// No image is ever scaled up: what is planned for it has its own size, or the
/// target size where both sides shrink.
pub proof fn images_never_grow<
    M: Fn(&Placements, ObjectId, u32, u32) -> Option<Geometry>,
    D: Fn(&[u8], u32, u32) -> Option<Raster>,
    E: Fn(&Raster, u8) -> Option<Vec<u8>>,
    J: Fn(&[u8]) -> Option<Vec<u8>>,
>(
    measure: M,
    codec: Codec<D, E, J>,
    placements: PlacementsValue,
    objects: Seq<(ObjectId, Value)>,
    id: ObjectId,
    o: ImageOptions,
    r: ReplacementValue,
)
    requires
        plan_outcome(measure, codec, placements, objects, id, o, Some(r)),
    ensures
        lookup(objects, id) is Some,
        lookup(objects, id)->0 is Stream,
        ({
            let d = lookup(objects, id)->0->Stream_0.dict;
            let px = image_size(d)->0;
            &&& image_size(d) is Some
            &&& r.width <= px.0 && r.height <= px.1
            &&& (r.width == px.0 && r.height == px.1) || (r.width < px.0 && r.height < px.1)
            &&& match r.smask {
                Some(m) => m.width == r.width && m.height == r.height,
                None => true,
            }
        }),
{
    let s = lookup(objects, id)->0->Stream_0;
    let px = image_size(s.dict)->0;
    let g = choose|g: Option<Geometry>| #[trigger]
        may_measure(measure, placements, id, px, g) && match g {
            None => false,
            Some(x) => x.target_w != 0 && x.target_h != 0 && route_outcome(
                codec,
                objects,
                s,
                id,
                px,
                shrinking(x, px),
                o,
                Some(r),
            ),
        };
    replacements_save(codec, objects, s, id, px, shrinking(g->0, px), o, r);
}

/// A document that is encrypted, signed or declared PDF/A keeps its content
/// streams and its compressed streams.
pub proof fn locked_documents_keep_their_streams(
    doc: DocumentValue,
    backend: DeflateBackend,
    written: (DocumentValue, bool),
    packed: DocumentValue,
)
    requires
        streams_locked(doc),
        minify_outcome(doc, backend, written),
        redeflate_document_outcome(doc, backend, packed),
    ensures
        written == (doc, false),
        packed == doc,
{
}

/// Where nothing is asked for but what writing the file anew would gain, and
/// nothing was merged or written anew, there is no result: the file comes
/// back as it was.
pub proof fn no_work_gives_no_result<
    M: Fn(&Placements, ObjectId, u32, u32) -> Option<Geometry>,
    D: Fn(&[u8], u32, u32) -> Option<Raster>,
    E: Fn(&Raster, u8) -> Option<Vec<u8>>,
    J: Fn(&[u8]) -> Option<Vec<u8>>,
>(
    measure: M,
    codec: Codec<D, E, J>,
    doc: DocumentValue,
    o: OptimizeOptions,
    literals: Map<u32, Seq<u8>>,
    m: spec_fn(Seq<u8>) -> Option<ReadingValue>,
    l: spec_fn(Seq<u8>) -> Option<DocumentValue>,
    r: Option<Seq<u8>>,
)
    requires
        at_most_zero(o.target_dpi),
        !o.allow_lossy_reencode,
        !o.strip_accessibility,
        !o.collapse_gray_images,
        planned_outcome(measure, codec, doc, false, o, literals, m, l, r),
    ensures
        r is None,
{
}

/// No image of the document is replaced or converted.
pub open spec fn images_settled<
    M: Fn(&Placements, ObjectId, u32, u32) -> Option<Geometry>,
    D: Fn(&[u8], u32, u32) -> Option<Raster>,
    E: Fn(&Raster, u8) -> Option<Vec<u8>>,
    J: Fn(&[u8]) -> Option<Vec<u8>>,
>(measure: M, codec: Codec<D, E, J>, doc: DocumentValue, o: OptimizeOptions) -> bool {
    let placements = pages_walked(doc.objects, known_pages(doc), known_pages(doc).len() as int);
    &&& forall|id: ObjectId, r: Option<ReplacementValue>| #[trigger]
        plan_outcome(measure, codec, placements, doc.objects, id, o.images(), r) ==> r is None
    &&& o.allow_lossy_reencode ==> forall|i: int, r: Option<JpxValue>|
        0 <= i < doc.objects.len() && #[trigger] jpx_outcome(
            codec,
            doc.objects,
            doc.objects[i].1,
            o.jpeg_quality,
            r,
        ) ==> r is None
}

/// There is nothing to gain in a document: no stream is repeated, no content
/// stream gets shorter, no image is replaced or converted, and neither
/// stripping nor collapsing is asked for in vain.
pub open spec fn settled<
    M: Fn(&Placements, ObjectId, u32, u32) -> Option<Geometry>,
    D: Fn(&[u8], u32, u32) -> Option<Raster>,
    E: Fn(&Raster, u8) -> Option<Vec<u8>>,
    J: Fn(&[u8]) -> Option<Vec<u8>>,
>(measure: M, codec: Codec<D, E, J>, doc: DocumentValue, o: OptimizeOptions) -> bool {
    &&& !has_duplicates(Sameness::Streams, doc.objects)
    &&& !has_duplicates(Sameness::Payloads(flate_payloads(doc.objects)), doc.objects)
    &&& forall|c: (DocumentValue, bool)| #[trigger]
        minify_outcome(doc, o.deflate_backend, c) ==> c == (doc, false)
    &&& images_settled(measure, codec, doc, o)
    &&& !o.strip_accessibility
    &&& o.collapse_gray_images ==> !has_gray_work(doc.objects)
}

proof fn lemma_nothing_present(list: Seq<Option<ReplacementValue>>, n: int)
    requires
        0 <= n <= list.len(),
        forall|i: int| 0 <= i < n ==> (#[trigger] list[i]) is None,
    ensures
        present(list, n).len() == 0,
    decreases n,
{
    if n > 0 {
        lemma_nothing_present(list, n - 1);
    }
}

/// A document in which there is nothing to gain is not rewritten, whatever
/// the target resolution.
pub proof fn settled_document_gives_no_result<
    M: Fn(&Placements, ObjectId, u32, u32) -> Option<Geometry>,
    D: Fn(&[u8], u32, u32) -> Option<Raster>,
    E: Fn(&Raster, u8) -> Option<Vec<u8>>,
    J: Fn(&[u8]) -> Option<Vec<u8>>,
>(
    measure: M,
    codec: Codec<D, E, J>,
    doc: DocumentValue,
    o: OptimizeOptions,
    literals: Map<u32, Seq<u8>>,
    m: spec_fn(Seq<u8>) -> Option<ReadingValue>,
    l: spec_fn(Seq<u8>) -> Option<DocumentValue>,
    r: Option<Seq<u8>>,
)
    requires
        settled(measure, codec, doc, o),
        document_outcome(measure, codec, doc, o, literals, m, l, r),
    ensures
        r is None,
{
    if all_whole(doc) {
        assert(deduped(doc) == doc);
        let c = choose|c: (DocumentValue, bool)| #[trigger]
            minify_outcome(deduped(doc), o.deflate_backend, c) && planned_outcome(
                measure,
                codec,
                c.0,
                had_repeats(doc) || c.1,
                o,
                literals,
                m,
                l,
                r,
            );
        let p = choose|p: PlansValue| #[trigger]
            plans_ok(measure, codec, doc, o, p) && if !has_work(doc, o, p) {
                r is None
            } else {
                write_outcome(carried_out(doc, o, p), o, literals, m, l, r)
            };
        let placements = pages_walked(
            doc.objects,
            known_pages(doc),
            known_pages(doc).len() as int,
        );
        let ids = painted(placements.paints, placements.paints.len() as int);
        if !at_most_zero(o.target_dpi) {
            let results = choose|results: Seq<Option<ReplacementValue>>|
                {
                    &&& results.len() == ids.len()
                    &&& forall|i: int|
                        0 <= i < ids.len() ==> plan_outcome(
                            measure,
                            codec,
                            placements,
                            doc.objects,
                            ids[i],
                            o.images(),
                            #[trigger] results[i],
                        )
                    &&& p.replacements == #[trigger] present(results, results.len() as int)
                };
            lemma_nothing_present(results, results.len() as int);
        }
        assert(!any_conversion(p.conversions)) by {
            assert forall|i: int| 0 <= i < p.conversions.len() implies (
            #[trigger] p.conversions[i]) is None by {
                if o.allow_lossy_reencode {
                    assert(jpx_outcome(
                        codec,
                        doc.objects,
                        doc.objects[i].1,
                        o.jpeg_quality,
                        p.conversions[i],
                    ));
                }
            }
        }
    }
}

/// A file that holds a document in which there is nothing to gain comes back
/// byte for byte. So a second run over a result that is such a file changes
/// nothing.
pub proof fn settled_file_comes_back<
    M: Fn(&Placements, ObjectId, u32, u32) -> Option<Geometry>,
    D: Fn(&[u8], u32, u32) -> Option<Raster>,
    E: Fn(&Raster, u8) -> Option<Vec<u8>>,
    J: Fn(&[u8]) -> Option<Vec<u8>>,
    R: Fn(&[u8]) -> Option<Reading>,
    L: Fn(&[u8]) -> Option<Pdf>,
>(
    measure: M,
    codec: Codec<D, E, J>,
    read: R,
    load: L,
    input: Seq<u8>,
    o: OptimizeOptions,
    r: Option<Seq<u8>>,
)
    requires
        rewrite_outcome(measure, codec, read, load, input, o, r),
        loaded(load, input) is Some ==> !(loaded(load, input)->0).encrypted && settled(
            measure,
            codec,
            loaded(load, input)->0,
            o,
        ),
    ensures
        r is None,
        smaller(input, r) == input,
{
    let m = |t: Seq<u8>| meaning(read, t);
    let l = |t: Seq<u8>| loaded(load, t);
    if loaded(load, input) is Some {
        let d = choose|d: DocumentValue| #[trigger]
            source(input, l, d) && document_outcome(
                measure,
                codec,
                d,
                o,
                captured(m, file_tokens(input)),
                m,
                l,
                r,
            );
        settled_document_gives_no_result(
            measure,
            codec,
            d,
            o,
            captured(m, file_tokens(input)),
            m,
            l,
            r,
        );
    }
}

/// No key occurs twice.
pub open spec fn keys_distinct(d: Seq<(Seq<u8>, Value)>) -> bool {
    forall|i: int, j: int| 0 <= i < j < d.len() ==> (#[trigger] d[i]).0 != (#[trigger] d[j]).0
}

/// Taking out a key takes out that one and no other.
pub proof fn removed_key_is_gone(d: Seq<(Seq<u8>, Value)>, key: Seq<u8>, other: Seq<u8>)
    requires
        keys_distinct(d),
    ensures
        keys_distinct(dict_remove(d, key)),
        dict_get(dict_remove(d, key), key) is None,
        other != key ==> dict_get(dict_remove(d, key), other) == dict_get(d, other),
{
    let r = dict_remove(d, key);
    lemma_dict_index(d, key, 0);
    lemma_dict_index(r, key, 0);
    lemma_dict_index(d, other, 0);
    lemma_dict_index(r, other, 0);
    match dict_index(d, key) {
        None => {},
        Some(i) => {
            let n = d.len() - 1;
            assert forall|a: int, b: int| 0 <= a < b < r.len() implies (#[trigger] r[a]).0 != (
            #[trigger] r[b]).0 by {
                let x = if a == i {
                    n
                } else {
                    a
                };
                let y = if b == i {
                    n
                } else {
                    b
                };
                assert(r[a] == d[x] && r[b] == d[y]);
                if x < y {
                    assert(d[x].0 != d[y].0);
                } else {
                    assert(d[y].0 != d[x].0);
                }
            }
            if dict_index(r, key) is Some {
                let j = dict_index(r, key)->0;
                let x = if j == i {
                    n
                } else {
                    j
                };
                assert(r[j] == d[x]);
                if x < i {
                    assert(d[x].0 != d[i].0);
                } else {
                    assert(d[i].0 != d[x].0);
                }
            }
            if other != key {
                match dict_index(d, other) {
                    Some(j) => {
                        let x = if j == n {
                            i
                        } else {
                            j
                        };
                        assert(r[x] == d[j]);
                        let y = dict_index(r, other)->0;
                        if x < y {
                            assert(r[x].0 != r[y].0);
                        } else if y < x {
                            assert(r[y].0 != r[x].0);
                        }
                    },
                    None => {
                        if dict_index(r, other) is Some {
                            let y = dict_index(r, other)->0;
                            let x = if y == i {
                                n
                            } else {
                                y
                            };
                            assert(r[y] == d[x]);
                        }
                    },
                }
            }
        },
    }
}

/// Nothing that described the cross-reference section of the input is left in
/// the trailer.
pub proof fn trailer_is_tidy(t: Seq<(Seq<u8>, Value)>)
    requires
        keys_distinct(t),
    ensures
        dict_get(tidy_trailer(t), DECODE_PARMS@) is None,
        dict_get(tidy_trailer(t), FILTER@) is None,
        dict_get(tidy_trailer(t), PREV@) is None,
        dict_get(tidy_trailer(t), XREF_STM@) is None,
        dict_get(tidy_trailer(t), LENGTH@) is None,
{
    let a = dict_remove(t, DECODE_PARMS@);
    let b = dict_remove(a, FILTER@);
    let c = dict_remove(b, PREV@);
    let d = dict_remove(c, XREF_STM@);
    removed_key_is_gone(t, DECODE_PARMS@, FILTER@);
    removed_key_is_gone(a, FILTER@, DECODE_PARMS@);
    removed_key_is_gone(b, PREV@, DECODE_PARMS@);
    removed_key_is_gone(b, PREV@, FILTER@);
    removed_key_is_gone(c, XREF_STM@, DECODE_PARMS@);
    removed_key_is_gone(c, XREF_STM@, FILTER@);
    removed_key_is_gone(c, XREF_STM@, PREV@);
    removed_key_is_gone(d, LENGTH@, DECODE_PARMS@);
    removed_key_is_gone(d, LENGTH@, FILTER@);
    removed_key_is_gone(d, LENGTH@, PREV@);
    removed_key_is_gone(d, LENGTH@, XREF_STM@);
}

/// A catalog without its structure tree has no tree, no marking and no
/// language, and everything else.
pub proof fn untagged_catalog(d: Seq<(Seq<u8>, Value)>, other: Seq<u8>)
    requires
        keys_distinct(d),
    ensures
        dict_get(untagged(d), STRUCT_TREE_ROOT@) is None,
        dict_get(untagged(d), MARK_INFO@) is None,
        dict_get(untagged(d), LANG@) is None,
        other != STRUCT_TREE_ROOT@ && other != MARK_INFO@ && other != LANG@ ==> dict_get(
            untagged(d),
            other,
        ) == dict_get(d, other),
{
    let a = dict_remove(d, STRUCT_TREE_ROOT@);
    let b = dict_remove(a, MARK_INFO@);
    removed_key_is_gone(d, STRUCT_TREE_ROOT@, other);
    removed_key_is_gone(a, MARK_INFO@, STRUCT_TREE_ROOT@);
    removed_key_is_gone(a, MARK_INFO@, other);
    removed_key_is_gone(b, LANG@, STRUCT_TREE_ROOT@);
    removed_key_is_gone(b, LANG@, MARK_INFO@);
    removed_key_is_gone(b, LANG@, other);
}

// --- real literals --------------------------------------------------------------------------------------

proof fn lemma_first_with_found(
    m: spec_fn(Seq<u8>) -> Option<ReadingValue>,
    list: Seq<Seq<u8>>,
    bits: u32,
    i: int,
    j: int,
)
    requires
        0 <= i <= j < list.len(),
        has_bits(m, list[j], bits),
    ensures
        first_with(m, list, bits, i) is Some,
        i <= first_with(m, list, bits, i)->0 <= j,
        has_bits(m, list[first_with(m, list, bits, i)->0], bits),
    decreases j - i,
{
    if !has_bits(m, list[i], bits) {
        lemma_first_with_found(m, list, bits, i + 1, j);
    }
}

/// The text that is put back for a value is a literal of the input, has that
/// value in single precision, and would not have survived; and no other
/// number of the input with this value, integers included, is another number
/// or would be written back as it is.
pub proof fn captured_text_is_exact(
    m: spec_fn(Seq<u8>) -> Option<ReadingValue>,
    list: Seq<Seq<u8>>,
    bits: u32,
    i: int,
)
    requires
        captured(m, list).contains_key(bits),
    ensures
        list.contains(captured(m, list)[bits]),
        m(captured(m, list)[bits]) is Some,
        (m(captured(m, list)[bits])->0).narrow == bits,
        !survives(m, captured(m, list)[bits]),
        0 <= i < list.len() && has_bits(m, list[i], bits) ==> !keeps(m, list[i]) && (m(
            list[i],
        )->0).wide == (m(captured(m, list)[bits])->0).wide,
{
    assert(drifts(m, list, bits));
    let j = choose|j: int| 0 <= j < list.len() && #[trigger] has_bits(m, list[j], bits);
    lemma_first_with_found(m, list, bits, 0, j);
    let f = first_with(m, list, bits, 0)->0;
    assert(captured(m, list)[bits] == list[f]);
    assert(has_bits(m, list[f], bits));
}

/// A literal that takes the place of a printed one has the same value in
/// single precision, though it is another text and, in double precision,
/// another number; the printed text is the shortest spelling of the value.
/// It is a literal of the input, written with a point.
pub proof fn replacement_keeps_the_value(
    m: spec_fn(Seq<u8>) -> Option<ReadingValue>,
    list: Seq<Seq<u8>>,
    printed: Seq<u8>,
)
    requires
        replaced_by(captured(m, list), m, printed) is Some,
    ensures
        ({
            let t = replaced_by(captured(m, list), m, printed)->0;
            &&& t != printed
            &&& list.contains(t)
            &&& has_point(t)
            &&& m(t) is Some && m(printed) is Some
            &&& (m(t)->0).narrow == (m(printed)->0).narrow
            &&& (m(printed)->0).shortest == printed
            &&& (m(t)->0).shortest == printed
            &&& (m(t)->0).wide != (m(printed)->0).wide
        }),
{
    let bits = (m(printed)->0).narrow;
    assert(captured(m, list).contains_key(bits));
    let j = choose|j: int| 0 <= j < list.len() && #[trigger] has_bits(m, list[j], bits);
    lemma_first_with_found(m, list, bits, 0, j);
    captured_text_is_exact(m, list, bits, j);
    let f = first_with(m, list, bits, 0)->0;
    assert(has_bits(m, list[f], bits));
    assert(!keeps(m, list[f]));
}

/// Putting literals back changes no object of the file: what is written holds
/// the same objects as before, and with nothing to put back it is the same
/// file.
pub proof fn restoring_keeps_objects(
    file: Seq<u8>,
    literals: Map<u32, Seq<u8>>,
    m: spec_fn(Seq<u8>) -> Option<ReadingValue>,
    l: spec_fn(Seq<u8>) -> Option<DocumentValue>,
)
    ensures
        with_literals(file, literals, m, l) == file || reads_same(
            file,
            with_literals(file, literals, m, l),
            l,
        ),
        literals.is_empty() ==> with_literals(file, literals, m, l) == file,
{
}

} // verus!
