//! Merging duplicate objects: the lowest identifier of each group stays, all
//! references to the others are redirected to it, and the others go.

use crate::bytes::same_bytes;
use crate::flate::{inflate_capped, inflated, opt_view, MAX_REDEFLATE_BYTES};
use crate::lookup::{absent, classify_filter, filter_class, is_absent, is_name, FilterClass};
use crate::names::{DECODE_PARMS, FILTER, PAGE, PAGES, TYPE};
use crate::object::{
    dict_get, id_less, ids_ascend, indirect_views, lemma_object_index, object_index, object_view,
    Dict, DocumentValue, Entry, Indirect, ObjectId, Pdf, PdfObject, PdfStream, StreamValue, Value,
};
use crate::text::{signed_decimal, signed_digits};
use std::collections::BTreeMap;
use vstd::prelude::*;

verus! {

broadcast use {vstd::std_specs::btree::group_btree_axioms, vstd::laws_cmp::group_laws_cmp};

// --- what is a duplicate of what ------------------------------------------------------

/// Which objects count as duplicates.
pub enum Sameness {
    /// Objects other than streams and page tree nodes, that are written alike.
    Objects,
    /// Streams whose dictionaries are written alike, of equal payload.
    Streams,
    /// Streams that decode to equal payloads; `None` for what does not take
    /// part.
    Payloads(Seq<Option<Seq<u8>>>),
}

/// A node of the page tree. Its identity matters beyond its content:
/// destinations and parents refer to it.
pub open spec fn page_node(v: Value) -> bool {
    match v {
        Value::Dictionary(d) => dict_get(d, TYPE@) == Some(Value::Name(PAGE@)) || dict_get(d, TYPE@)
            == Some(Value::Name(PAGES@)),
        _ => false,
    }
}

/// Object `i` can have duplicates.
pub open spec fn takes_part(k: Sameness, objects: Seq<(ObjectId, Value)>, i: int) -> bool {
    match k {
        Sameness::Objects => !(objects[i].1 is Stream) && !page_node(objects[i].1),
        Sameness::Streams => objects[i].1 is Stream,
        Sameness::Payloads(list) => list[i] is Some,
    }
}

/// `v` as it is written: an integer is the real of the same spelling.
pub open spec fn printed(v: Value) -> Value
    decreases v,
{
    match v {
        Value::Integer(i) => Value::Real(signed_digits(i as int)),
        Value::Array(items) => Value::Array(
            Seq::new(
                items.len(),
                |i: int|
                    if 0 <= i < items.len() {
                        printed(items[i])
                    } else {
                        Value::Null
                    },
            ),
        ),
        Value::Dictionary(d) => Value::Dictionary(printed_dict(d)),
        Value::Stream(s) => Value::Stream(
            StreamValue {
                dict: printed_dict(s.dict),
                content: s.content,
                compressible: s.compressible,
            },
        ),
        _ => v,
    }
}

/// A dictionary as it is written.
pub open spec fn printed_dict(d: Seq<(Seq<u8>, Value)>) -> Seq<(Seq<u8>, Value)>
    decreases d,
{
    Seq::new(
        d.len(),
        |i: int|
            if 0 <= i < d.len() {
                (d[i].0, printed(d[i].1))
            } else {
                (Seq::empty(), Value::Null)
            },
    )
}

/// Objects `i` and `j`, which take part, are duplicates of each other: they
/// are written alike, and streams have the same payload.
pub open spec fn same_under(k: Sameness, objects: Seq<(ObjectId, Value)>, i: int, j: int) -> bool {
    match k {
        Sameness::Objects => printed(objects[i].1) == printed(objects[j].1),
        Sameness::Streams => printed_dict(objects[i].1->Stream_0.dict) == printed_dict(
            objects[j].1->Stream_0.dict,
        ) && objects[i].1->Stream_0.content == objects[j].1->Stream_0.content,
        Sameness::Payloads(list) => list[i] == list[j],
    }
}

/// The first object from `j` on of which object `i` is a duplicate, itself
/// included.
pub open spec fn first_same(k: Sameness, objects: Seq<(ObjectId, Value)>, i: int, j: int) -> int
    decreases i - j,
{
    if j >= i {
        i
    } else if takes_part(k, objects, j) && same_under(k, objects, j, i) {
        j
    } else {
        first_same(k, objects, i, j + 1)
    }
}

/// The object that stays in the place of object `i`.
pub open spec fn canonical(k: Sameness, objects: Seq<(ObjectId, Value)>, i: int) -> int {
    if takes_part(k, objects, i) {
        first_same(k, objects, i, 0)
    } else {
        i
    }
}

/// Where a reference to `id` goes.
pub open spec fn redirect(
    k: Sameness,
    objects: Seq<(ObjectId, Value)>,
    id: ObjectId,
) -> ObjectId {
    match object_index(objects, id) {
        Some(i) => objects[canonical(k, objects, i)].0,
        None => id,
    }
}

/// `v` with every reference redirected.
pub open spec fn remapped(v: Value, f: spec_fn(ObjectId) -> ObjectId) -> Value
    decreases v,
{
    match v {
        Value::Reference(id) => Value::Reference(f(id)),
        Value::Array(items) => Value::Array(
            Seq::new(
                items.len(),
                |i: int|
                    if 0 <= i < items.len() {
                        remapped(items[i], f)
                    } else {
                        Value::Null
                    },
            ),
        ),
        Value::Dictionary(d) => Value::Dictionary(remapped_dict(d, f)),
        Value::Stream(s) => Value::Stream(
            StreamValue {
                dict: remapped_dict(s.dict, f),
                content: s.content,
                compressible: s.compressible,
            },
        ),
        _ => v,
    }
}

/// A dictionary with every reference redirected.
pub open spec fn remapped_dict(
    d: Seq<(Seq<u8>, Value)>,
    f: spec_fn(ObjectId) -> ObjectId,
) -> Seq<(Seq<u8>, Value)>
    decreases d,
{
    Seq::new(
        d.len(),
        |i: int|
            if 0 <= i < d.len() {
                (d[i].0, remapped(d[i].1, f))
            } else {
                (Seq::empty(), Value::Null)
            },
    )
}

/// Of the first `n` objects, those that stay, with references redirected.
pub open spec fn kept(
    k: Sameness,
    objects: Seq<(ObjectId, Value)>,
    f: spec_fn(ObjectId) -> ObjectId,
    n: int,
) -> Seq<(ObjectId, Value)>
    decreases n,
{
    if n <= 0 {
        Seq::empty()
    } else if canonical(k, objects, n - 1) == n - 1 {
        kept(k, objects, f, n - 1).push((objects[n - 1].0, remapped(objects[n - 1].1, f)))
    } else {
        kept(k, objects, f, n - 1)
    }
}

/// There is a duplicate.
pub open spec fn has_duplicates(k: Sameness, objects: Seq<(ObjectId, Value)>) -> bool {
    exists|i: int| 0 <= i < objects.len() && #[trigger] canonical(k, objects, i) != i
}

/// The document with its duplicates merged.
pub open spec fn merged(k: Sameness, doc: DocumentValue) -> DocumentValue {
    if has_duplicates(k, doc.objects) {
        let f = |id: ObjectId| redirect(k, doc.objects, id);
        DocumentValue {
            objects: kept(k, doc.objects, f, doc.objects.len() as int),
            trailer: remapped_dict(doc.trailer, f),
            ..doc
        }
    } else {
        doc
    }
}

// --- hashing -------------------------------------------------------------------------------

/// One step of a rolling hash.
pub open spec fn mix(h: u64, x: u64) -> u64 {
    ((h * 0x100_0000_01B3 + x + 1) % 0x1_0000_0000_0000_0000) as u64
}

/// The hash of the first `n` bytes.
pub open spec fn bytes_hash(h: u64, s: Seq<u8>, n: int) -> u64
    decreases n,
{
    if n <= 0 {
        h
    } else {
        mix(bytes_hash(h, s, n - 1), s[n - 1] as u64)
    }
}

/// A hash of a value that does not look inside collections.
pub open spec fn shallow_hash(v: Value) -> u64 {
    match v {
        Value::Null => 1,
        Value::Boolean(b) => if b {
            2
        } else {
            3
        },
        Value::Integer(i) => bytes_hash(
            5,
            signed_digits(i as int),
            signed_digits(i as int).len() as int,
        ),
        Value::Real(t) => bytes_hash(5, t, t.len() as int),
        Value::Name(t) => bytes_hash(6, t, t.len() as int),
        Value::Text(t, hex) => bytes_hash(7, t, t.len() as int),
        Value::Array(items) => 8,
        Value::Dictionary(d) => 9,
        Value::Stream(s) => bytes_hash(10, s.content, s.content.len() as int),
        Value::Reference(id) => mix(11, (id.0 * 0x1_0000 + id.1) as u64),
    }
}

/// The hash of the first `n` items of an array.
pub open spec fn items_hash(items: Seq<Value>, n: int) -> u64
    decreases n,
{
    if n <= 0 {
        12
    } else {
        mix(items_hash(items, n - 1), shallow_hash(items[n - 1]))
    }
}

/// The hash of the first `n` entries of a dictionary.
pub open spec fn entries_hash(d: Seq<(Seq<u8>, Value)>, n: int) -> u64
    decreases n,
{
    if n <= 0 {
        13
    } else {
        mix(
            bytes_hash(entries_hash(d, n - 1), d[n - 1].0, d[n - 1].0.len() as int),
            shallow_hash(d[n - 1].1),
        )
    }
}

/// The hash of an object.
pub open spec fn value_hash(v: Value) -> u64 {
    match v {
        Value::Array(items) => items_hash(items, items.len() as int),
        Value::Dictionary(d) => entries_hash(d, d.len() as int),
        _ => shallow_hash(v),
    }
}

/// The hash by which duplicates are looked for. Duplicates have the same.
pub open spec fn part_hash(k: Sameness, objects: Seq<(ObjectId, Value)>, i: int) -> u64 {
    match k {
        Sameness::Payloads(list) => bytes_hash(14, list[i]->0, (list[i]->0).len() as int),
        _ => value_hash(objects[i].1),
    }
}

/// Whether two objects are written alike.
fn same_printed(a: &PdfObject, b: &PdfObject) -> (r: bool)
    ensures
        r == (printed(a@) == printed(b@)),
    decreases a,
{
    match (a, b) {
        (PdfObject::Null, PdfObject::Null) => true,
        (PdfObject::Boolean(x), PdfObject::Boolean(y)) => *x == *y,
        (PdfObject::Integer(x), PdfObject::Integer(y)) => *x == *y || same_bytes(
            signed_decimal(*x).as_slice(),
            signed_decimal(*y).as_slice(),
        ),
        (PdfObject::Integer(x), PdfObject::Real(y)) => same_bytes(
            signed_decimal(*x).as_slice(),
            y.as_slice(),
        ),
        (PdfObject::Real(x), PdfObject::Integer(y)) => same_bytes(
            x.as_slice(),
            signed_decimal(*y).as_slice(),
        ),
        (PdfObject::Real(x), PdfObject::Real(y)) => same_bytes(x.as_slice(), y.as_slice()),
        (PdfObject::Name(x), PdfObject::Name(y)) => same_bytes(x.as_slice(), y.as_slice()),
        (PdfObject::Text(x, h), PdfObject::Text(y, k)) => *h == *k && same_bytes(
            x.as_slice(),
            y.as_slice(),
        ),
        (PdfObject::Array(x), PdfObject::Array(y)) => {
            let ghost (p, q) = (printed(a@)->Array_0, printed(b@)->Array_0);
            proof {
                assert(p.len() == x@.len() && q.len() == y@.len());
            }
            if x.len() != y.len() {
                return false;
            }
            let mut i: usize = 0;
            while i < x.len()
                invariant
                    i <= x@.len(),
                    x@.len() == y@.len(),
                    *a == PdfObject::Array(*x),
                    *b == PdfObject::Array(*y),
                    p == printed(a@)->Array_0,
                    q == printed(b@)->Array_0,
                    p.len() == x@.len(),
                    q.len() == y@.len(),
                    forall|k: int| 0 <= k < i ==> p[k] == q[k],
                decreases x@.len() - i,
            {
                proof {
                    assert(decreases_to!(a => x@[i as int]));
                    assert(a@->Array_0[i as int] == object_view(x@[i as int]));
                    assert(b@->Array_0[i as int] == object_view(y@[i as int]));
                    assert(p[i as int] == printed(x@[i as int]@));
                    assert(q[i as int] == printed(y@[i as int]@));
                }
                if !same_printed(&x[i], &y[i]) {
                    return false;
                }
                i += 1;
            }
            proof {
                assert(p =~= q);
            }
            true
        },
        (PdfObject::Dictionary(x), PdfObject::Dictionary(y)) => same_printed_dict(x, y),
        (PdfObject::Stream(x), PdfObject::Stream(y)) => x.compressible == y.compressible && same_bytes(
            x.content.as_slice(),
            y.content.as_slice(),
        ) && same_printed_dict(&x.dict, &y.dict),
        (PdfObject::Reference(x), PdfObject::Reference(y)) => x.0 == y.0 && x.1 == y.1,
        _ => false,
    }
}

/// Whether two dictionaries are written alike.
fn same_printed_dict(a: &Dict, b: &Dict) -> (r: bool)
    ensures
        r == (printed_dict(a@) == printed_dict(b@)),
    decreases a,
{
    let x = &a.entries;
    let y = &b.entries;
    let ghost (p, q) = (printed_dict(a@), printed_dict(b@));
    proof {
        assert(p.len() == x@.len() && q.len() == y@.len());
    }
    if x.len() != y.len() {
        return false;
    }
    let mut i: usize = 0;
    while i < x.len()
        invariant
            i <= x@.len(),
            x@.len() == y@.len(),
            a.entries == x,
            b.entries == y,
            p == printed_dict(a@),
            q == printed_dict(b@),
            p.len() == x@.len(),
            q.len() == y@.len(),
            forall|k: int| 0 <= k < i ==> p[k] == q[k],
        decreases x@.len() - i,
    {
        proof {
            assert(decreases_to!(a => x@[i as int]));
            assert(a@[i as int] == (x@[i as int].key@, object_view(x@[i as int].value)));
            assert(b@[i as int] == (y@[i as int].key@, object_view(y@[i as int].value)));
            assert(p[i as int] == (x@[i as int].key@, printed(x@[i as int].value@)));
            assert(q[i as int] == (y@[i as int].key@, printed(y@[i as int].value@)));
        }
        if !same_bytes(x[i].key.as_slice(), y[i].key.as_slice()) || !same_printed(
            &x[i].value,
            &y[i].value,
        ) {
            return false;
        }
        i += 1;
    }
    proof {
        assert(p =~= q);
    }
    true
}

fn mix_in(h: u64, x: u64) -> (r: u64)
    ensures
        r == mix(h, x),
{
    let a: u64 = h.wrapping_mul(0x100_0000_01B3);
    let b: u64 = a.wrapping_add(x);
    let c: u64 = b.wrapping_add(1);
    proof {
        let m = 0x1_0000_0000_0000_0000int;
        let p = h * 0x100_0000_01B3;
        assert(a == p % m);
        assert(b == (a + x) % m);
        assert(c == (b + 1) % m);
        vstd::arithmetic::div_mod::lemma_add_mod_noop(p, (x + 1) as int, m);
        assert((a + x) % m + 1 == b + 1);
        assert(c == (p + x + 1) % m) by {
            vstd::arithmetic::div_mod::lemma_add_mod_noop(p, x as int, m);
            vstd::arithmetic::div_mod::lemma_add_mod_noop(p + x, 1, m);
        }
    }
    c
}

fn hash_bytes(h: u64, s: &[u8]) -> (r: u64)
    ensures
        r == bytes_hash(h, s@, s@.len() as int),
{
    let mut out: u64 = h;
    let mut i: usize = 0;
    while i < s.len()
        invariant
            i <= s@.len(),
            out == bytes_hash(h, s@, i as int),
        decreases s@.len() - i,
    {
        out = mix_in(out, s[i] as u64);
        i += 1;
    }
    out
}

fn hash_shallow(o: &PdfObject) -> (r: u64)
    ensures
        r == shallow_hash(o@),
{
    match o {
        PdfObject::Null => 1,
        PdfObject::Boolean(b) => if *b {
            2
        } else {
            3
        },
        PdfObject::Integer(i) => hash_bytes(5, signed_decimal(*i).as_slice()),
        PdfObject::Real(t) => hash_bytes(5, t.as_slice()),
        PdfObject::Name(t) => hash_bytes(6, t.as_slice()),
        PdfObject::Text(t, _) => hash_bytes(7, t.as_slice()),
        PdfObject::Array(_) => 8,
        PdfObject::Dictionary(_) => 9,
        PdfObject::Stream(s) => hash_bytes(10, s.content.as_slice()),
        PdfObject::Reference(id) => mix_in(11, id.0 as u64 * 0x1_0000 + id.1 as u64),
    }
}

fn hash_object(o: &PdfObject) -> (r: u64)
    ensures
        r == value_hash(o@),
{
    match o {
        PdfObject::Array(items) => {
            let ghost list = o@->Array_0;
            let mut out: u64 = 12;
            let mut i: usize = 0;
            while i < items.len()
                invariant
                    i <= items@.len(),
                    *o == PdfObject::Array(*items),
                    list == o@->Array_0,
                    list.len() == items@.len(),
                    out == items_hash(list, i as int),
                decreases items@.len() - i,
            {
                proof {
                    assert(list[i as int] == object_view(items@[i as int]));
                }
                out = mix_in(out, hash_shallow(&items[i]));
                i += 1;
            }
            out
        },
        PdfObject::Dictionary(d) => {
            let mut out: u64 = 13;
            let mut i: usize = 0;
            while i < d.entries.len()
                invariant
                    i <= d.entries@.len(),
                    d@.len() == d.entries@.len(),
                    out == entries_hash(d@, i as int),
                decreases d.entries@.len() - i,
            {
                proof {
                    assert(d@[i as int] == (
                        d.entries@[i as int].key@,
                        object_view(d.entries@[i as int].value),
                    ));
                }
                out = mix_in(
                    hash_bytes(out, d.entries[i].key.as_slice()),
                    hash_shallow(&d.entries[i].value),
                );
                i += 1;
            }
            out
        },
        _ => hash_shallow(o),
    }
}

// --- finding duplicates -----------------------------------------------------------------

/// Which objects count as duplicates.
pub enum Merge {
    Objects,
    Streams,
    Payloads(Vec<Option<Vec<u8>>>),
}

/// The contents of optional byte strings.
pub open spec fn opt_views(list: Seq<Option<Vec<u8>>>) -> Seq<Option<Seq<u8>>> {
    list.map_values(|v: Option<Vec<u8>>| opt_view(v))
}

impl View for Merge {
    type V = Sameness;

    open spec fn view(&self) -> Sameness {
        match *self {
            Merge::Objects => Sameness::Objects,
            Merge::Streams => Sameness::Streams,
            Merge::Payloads(list) => Sameness::Payloads(opt_views(list@)),
        }
    }
}

/// The payload list, where there is one, is as long as the object list.
pub open spec fn merge_fits(m: Merge, n: nat) -> bool {
    match m {
        Merge::Payloads(list) => list@.len() == n,
        _ => true,
    }
}

/// True for page tree nodes, which must never be merged even when they are
/// equal: their identity matters.
pub fn is_page_node(obj: &PdfObject) -> (r: bool)
    ensures
        r == page_node(obj@),
{
    let (key, page, pages): ([u8; 4], [u8; 4], [u8; 5]) = (TYPE, PAGE, PAGES);
    match obj {
        PdfObject::Dictionary(d) => is_name(d.get(key.as_slice()), page.as_slice()) || is_name(
            d.get(key.as_slice()),
            pages.as_slice(),
        ),
        _ => false,
    }
}

fn part(m: &Merge, doc: &Pdf, i: usize) -> (r: bool)
    requires
        i < doc.objects@.len(),
        merge_fits(*m, doc.objects@.len()),
    ensures
        r == takes_part(m@, doc@.objects, i as int),
{
    proof {
        assert(doc@.objects[i as int].1 == object_view(doc.objects@[i as int].object));
    }
    match m {
        Merge::Objects => {
            let stream = match &doc.objects[i].object {
                PdfObject::Stream(_) => true,
                _ => false,
            };
            !stream && !is_page_node(&doc.objects[i].object)
        },
        Merge::Streams => match &doc.objects[i].object {
            PdfObject::Stream(_) => true,
            _ => false,
        },
        Merge::Payloads(list) => {
            proof {
                assert(opt_views(list@)[i as int] == opt_view(list@[i as int]));
            }
            list[i].is_some()
        },
    }
}

fn same(m: &Merge, doc: &Pdf, i: usize, j: usize) -> (r: bool)
    requires
        i < doc.objects@.len(),
        j < doc.objects@.len(),
        merge_fits(*m, doc.objects@.len()),
        takes_part(m@, doc@.objects, i as int),
        takes_part(m@, doc@.objects, j as int),
    ensures
        r == same_under(m@, doc@.objects, i as int, j as int),
{
    proof {
        assert(doc@.objects[i as int].1 == object_view(doc.objects@[i as int].object));
        assert(doc@.objects[j as int].1 == object_view(doc.objects@[j as int].object));
    }
    match m {
        Merge::Objects => same_printed(&doc.objects[i].object, &doc.objects[j].object),
        Merge::Streams => match (&doc.objects[i].object, &doc.objects[j].object) {
            (PdfObject::Stream(a), PdfObject::Stream(b)) => a.content.len() == b.content.len()
                && same_printed_dict(&a.dict, &b.dict) && same_bytes(
                a.content.as_slice(),
                b.content.as_slice(),
            ),
            _ => false,
        },
        Merge::Payloads(list) => {
            proof {
                assert(opt_views(list@)[i as int] == opt_view(list@[i as int]));
                assert(opt_views(list@)[j as int] == opt_view(list@[j as int]));
            }
            match (&list[i], &list[j]) {
                (Some(a), Some(b)) => same_bytes(a.as_slice(), b.as_slice()),
                _ => false,
            }
        },
    }
}

fn hash_part(m: &Merge, doc: &Pdf, i: usize) -> (r: u64)
    requires
        i < doc.objects@.len(),
        merge_fits(*m, doc.objects@.len()),
        takes_part(m@, doc@.objects, i as int),
    ensures
        r == part_hash(m@, doc@.objects, i as int),
{
    proof {
        assert(doc@.objects[i as int].1 == object_view(doc.objects@[i as int].object));
    }
    match m {
        Merge::Payloads(list) => {
            proof {
                assert(opt_views(list@)[i as int] == opt_view(list@[i as int]));
            }
            match &list[i] {
                Some(p) => hash_bytes(14, p.as_slice()),
                None => 0,
            }
        },
        _ => hash_object(&doc.objects[i].object),
    }
}

/// A hash sees what is written.
proof fn lemma_printed_items(items: Seq<Value>, n: int)
    requires
        0 <= n <= items.len(),
    ensures
        items_hash(printed(Value::Array(items))->Array_0, n) == items_hash(items, n),
    decreases n,
{
    if n > 0 {
        lemma_printed_items(items, n - 1);
        assert(printed(Value::Array(items))->Array_0[n - 1] == printed(items[n - 1]));
    }
}

proof fn lemma_printed_entries(d: Seq<(Seq<u8>, Value)>, n: int)
    requires
        0 <= n <= d.len(),
    ensures
        entries_hash(printed_dict(d), n) == entries_hash(d, n),
    decreases n,
{
    if n > 0 {
        lemma_printed_entries(d, n - 1);
        assert(printed_dict(d)[n - 1] == (d[n - 1].0, printed(d[n - 1].1)));
    }
}

proof fn lemma_printed_hash(v: Value)
    ensures
        value_hash(printed(v)) == value_hash(v),
{
    match v {
        Value::Array(items) => {
            lemma_printed_items(items, items.len() as int);
        },
        Value::Dictionary(d) => {
            lemma_printed_entries(d, d.len() as int);
        },
        _ => {},
    }
}

/// Duplicates have the same hash, and being one is an equivalence.
proof fn lemma_same_hash(k: Sameness, objects: Seq<(ObjectId, Value)>, i: int, j: int)
    requires
        takes_part(k, objects, i),
        takes_part(k, objects, j),
        same_under(k, objects, i, j),
    ensures
        part_hash(k, objects, i) == part_hash(k, objects, j),
{
    if !(k is Payloads) {
        lemma_printed_hash(objects[i].1);
        lemma_printed_hash(objects[j].1);
    }
}

/// The first duplicate is one, and nothing before it is.
pub proof fn lemma_first_same(k: Sameness, objects: Seq<(ObjectId, Value)>, i: int, j: int)
    requires
        0 <= j <= i,
        takes_part(k, objects, i),
    ensures
        j <= first_same(k, objects, i, j) <= i,
        takes_part(k, objects, first_same(k, objects, i, j)),
        same_under(k, objects, first_same(k, objects, i, j), i),
        forall|l: int|
            j <= l < first_same(k, objects, i, j) ==> !(takes_part(k, objects, l)
                && #[trigger] same_under(k, objects, l, i)),
    decreases i - j,
{
    if j < i && !(takes_part(k, objects, j) && same_under(k, objects, j, i)) {
        lemma_first_same(k, objects, i, j + 1);
    }
}

/// What stays in the place of something stays in its own place.
pub proof fn lemma_canonical(k: Sameness, objects: Seq<(ObjectId, Value)>, i: int)
    requires
        0 <= i,
    ensures
        0 <= canonical(k, objects, i) <= i,
        canonical(k, objects, canonical(k, objects, i)) == canonical(k, objects, i),
{
    if takes_part(k, objects, i) {
        lemma_first_same(k, objects, i, 0);
        let c = first_same(k, objects, i, 0);
        lemma_first_same(k, objects, c, 0);
        let d = first_same(k, objects, c, 0);
        if d < c {
            assert(same_under(k, objects, d, i));
        }
    }
}

/// A first duplicate that is known to be one and to stay is the first.
proof fn lemma_known_first(k: Sameness, objects: Seq<(ObjectId, Value)>, i: int, j: int)
    requires
        0 <= j < i,
        takes_part(k, objects, i),
        takes_part(k, objects, j),
        canonical(k, objects, j) == j,
        same_under(k, objects, j, i),
    ensures
        canonical(k, objects, i) == j,
{
    lemma_first_same(k, objects, i, 0);
    lemma_first_same(k, objects, j, 0);
    let c = first_same(k, objects, i, 0);
    if c < j {
        assert(same_under(k, objects, c, j));
    }
}

/// The buckets hold, by hash, the objects among the first `n` that stay and
/// can have duplicates.
spec fn buckets_hold(
    k: Sameness,
    objects: Seq<(ObjectId, Value)>,
    buckets: Map<u64, Vec<usize>>,
    n: int,
) -> bool {
    &&& forall|h: u64, p: int|
        buckets.contains_key(h) && 0 <= p < buckets[h]@.len() ==> {
            let j = #[trigger] buckets[h]@[p];
            &&& j < n
            &&& takes_part(k, objects, j as int)
            &&& canonical(k, objects, j as int) == j
            &&& part_hash(k, objects, j as int) == h
        }
    &&& forall|j: int|
        0 <= j < n && takes_part(k, objects, j) && #[trigger] canonical(k, objects, j) == j ==> {
            let h = part_hash(k, objects, j);
            buckets.contains_key(h) && buckets[h]@.contains(j as usize)
        }
}

/// Finds in a bucket the object of which object `i` is a duplicate.
fn find_in_bucket(m: &Merge, doc: &Pdf, bucket: &Vec<usize>, i: usize) -> (r: Option<usize>)
    requires
        i < doc.objects@.len(),
        merge_fits(*m, doc.objects@.len()),
        takes_part(m@, doc@.objects, i as int),
        forall|p: int|
            0 <= p < bucket@.len() ==> (#[trigger] bucket@[p]) < i && takes_part(
                m@,
                doc@.objects,
                bucket@[p] as int,
            ),
    ensures
        match r {
            Some(j) => bucket@.contains(j) && same_under(m@, doc@.objects, j as int, i as int),
            None => forall|p: int|
                0 <= p < bucket@.len() ==> !same_under(
                    m@,
                    doc@.objects,
                    #[trigger] bucket@[p] as int,
                    i as int,
                ),
        },
{
    let mut p: usize = 0;
    while p < bucket.len()
        invariant
            p <= bucket@.len(),
            i < doc.objects@.len(),
            merge_fits(*m, doc.objects@.len()),
            takes_part(m@, doc@.objects, i as int),
            forall|p: int|
                0 <= p < bucket@.len() ==> (#[trigger] bucket@[p]) < i && takes_part(
                    m@,
                    doc@.objects,
                    bucket@[p] as int,
                ),
            forall|q: int|
                0 <= q < p ==> !same_under(
                    m@,
                    doc@.objects,
                    #[trigger] bucket@[q] as int,
                    i as int,
                ),
        decreases bucket@.len() - p,
    {
        let j: usize = bucket[p];
        if same(m, doc, j, i) {
            return Some(j);
        }
        p += 1;
    }
    None
}

/// For each object the one that stays in its place.
pub fn find_canonical(m: &Merge, doc: &Pdf) -> (r: Vec<usize>)
    requires
        merge_fits(*m, doc.objects@.len()),
    ensures
        r@.len() == doc.objects@.len(),
        forall|i: int| 0 <= i < r@.len() ==> #[trigger] r@[i] == canonical(m@, doc@.objects, i),
{
    let ghost k = m@;
    let ghost objects = doc@.objects;
    let total: usize = doc.objects.len();
    let mut out: Vec<usize> = Vec::new();
    let mut buckets: BTreeMap<u64, Vec<usize>> = BTreeMap::new();
    let mut i: usize = 0;
    while i < total
        invariant
            i <= total,
            total == doc.objects@.len(),
            k == m@,
            objects == doc@.objects,
            merge_fits(*m, doc.objects@.len()),
            out@.len() == i,
            forall|j: int| 0 <= j < i ==> #[trigger] out@[j] == canonical(k, objects, j),
            buckets_hold(k, objects, buckets@, i as int),
        decreases total - i,
    {
        let ghost before = buckets@;
        if !part(m, doc, i) {
            out.push(i);
            i += 1;
            continue;
        }
        let h: u64 = hash_part(m, doc, i);
        let old: Vec<usize> = match buckets.remove(&h) {
            Some(v) => v,
            None => Vec::new(),
        };
        proof {
            assert forall|p: int| 0 <= p < old@.len() implies (#[trigger] old@[p]) < i
                && takes_part(k, objects, old@[p] as int) && canonical(
                k,
                objects,
                old@[p] as int,
            ) == old@[p] && part_hash(k, objects, old@[p] as int) == h by {
                assert(before.contains_key(h) && before[h] == old);
            }
            lemma_first_same(k, objects, i as int, 0);
        }
        let found = find_in_bucket(m, doc, &old, i);
        match found {
            Some(j) => {
                proof {
                    let p = choose|p: int| 0 <= p < old@.len() && old@[p] == j;
                    assert(takes_part(k, objects, old@[p] as int));
                    lemma_known_first(k, objects, i as int, j as int);
                }
                out.push(j);
                buckets.insert(h, old);
                proof {
                    if before.contains_key(h) {
                        assert(buckets@ =~= before);
                    } else {
                        assert(!old@.contains(j));
                    }
                    assert(canonical(k, objects, i as int) != i);
                    assert forall|l: int|
                        0 <= l < i + 1 && takes_part(k, objects, l) && #[trigger] canonical(
                            k,
                            objects,
                            l,
                        ) == l implies {
                        let g = part_hash(k, objects, l);
                        buckets@.contains_key(g) && buckets@[g]@.contains(l as usize)
                    } by {
                        assert(l != i);
                    }
                }
            },
            None => {
                proof {
                    let c = canonical(k, objects, i as int);
                    lemma_canonical(k, objects, i as int);
                    if c < i {
                        lemma_same_hash(k, objects, c, i as int);
                        assert(canonical(k, objects, c) == c);
                        assert(before.contains_key(h) && before[h]@.contains(c as usize));
                        let p = choose|p: int| 0 <= p < old@.len() && old@[p] == c;
                        assert(!same_under(k, objects, old@[p] as int, i as int));
                    }
                    assert(c == i);
                }
                let mut new = old;
                new.push(i);
                buckets.insert(h, new);
                out.push(i);
                proof {
                    assert forall|g: u64, p: int|
                        buckets@.contains_key(g) && 0 <= p < buckets@[g]@.len() implies {
                        let j = #[trigger] buckets@[g]@[p];
                        &&& j < i + 1
                        &&& takes_part(k, objects, j as int)
                        &&& canonical(k, objects, j as int) == j
                        &&& part_hash(k, objects, j as int) == g
                    } by {
                        if g == h {
                            if p < old@.len() {
                                assert(new@[p] == old@[p]);
                            }
                        } else {
                            assert(before.contains_key(g) && before[g] == buckets@[g]);
                        }
                    }
                    assert forall|l: int|
                        0 <= l < i + 1 && takes_part(k, objects, l) && #[trigger] canonical(
                            k,
                            objects,
                            l,
                        ) == l implies {
                        let g = part_hash(k, objects, l);
                        buckets@.contains_key(g) && buckets@[g]@.contains(l as usize)
                    } by {
                        let g = part_hash(k, objects, l);
                        if l == i {
                            assert(new@[new@.len() - 1] == i);
                        } else {
                            assert(before.contains_key(g) && before[g]@.contains(l as usize));
                            if g == h {
                                let p = choose|p: int| 0 <= p < old@.len() && old@[p] == l;
                                assert(new@[p] == l as usize);
                            }
                        }
                    }
                }
            },
        }
        i += 1;
    }
    out
}

// --- redirecting references ------------------------------------------------------------

/// Where references go: for each of the identifiers `ids`, in ascending
/// order, the index of the one that takes its place.
pub struct Redirects {
    pub ids: Vec<ObjectId>,
    pub to: Vec<usize>,
}

impl Redirects {
    /// The identifiers ascend, and each has a place to go.
    pub open spec fn wf(&self) -> bool {
        &&& self.ids@.len() == self.to@.len()
        &&& forall|i: int| 0 <= i < self.to@.len() ==> (#[trigger] self.to@[i]) < self.ids@.len()
        &&& forall|i: int, j: int|
            0 <= i < j < self.ids@.len() ==> id_less(#[trigger] self.ids@[i], #[trigger] self.ids@[j])
    }

    /// Where a reference to `id` goes.
    pub open spec fn target(&self, id: ObjectId) -> ObjectId {
        if exists|i: int| 0 <= i < self.ids@.len() && #[trigger] self.ids@[i] == id {
            let i = choose|i: int| 0 <= i < self.ids@.len() && #[trigger] self.ids@[i] == id;
            self.ids@[self.to@[i] as int]
        } else {
            id
        }
    }

    /// Where a reference to `id` goes.
    fn redirected(&self, id: ObjectId) -> (r: ObjectId)
        requires
            self.wf(),
        ensures
            r == self.target(id),
    {
        let mut lo: usize = 0;
        let mut hi: usize = self.ids.len();
        while lo < hi
            invariant
                self.wf(),
                lo <= hi <= self.ids@.len(),
                forall|i: int| 0 <= i < lo ==> id_less(#[trigger] self.ids@[i], id),
                forall|i: int| hi <= i < self.ids@.len() ==> id_less(id, #[trigger] self.ids@[i]),
            decreases hi - lo,
        {
            let mid: usize = lo + (hi - lo) / 2;
            let own: ObjectId = self.ids[mid];
            if own.0 == id.0 && own.1 == id.1 {
                proof {
                    let i = choose|i: int| 0 <= i < self.ids@.len() && #[trigger] self.ids@[i] == id;
                    assert(self.ids@[mid as int] == id);
                    if i < mid {
                        assert(id_less(self.ids@[i], self.ids@[mid as int]));
                    } else if i > mid {
                        assert(id_less(self.ids@[mid as int], self.ids@[i]));
                    }
                }
                return self.ids[self.to[mid]];
            }
            if own.0 < id.0 || (own.0 == id.0 && own.1 < id.1) {
                proof {
                    assert forall|i: int| 0 <= i < mid + 1 implies id_less(
                        #[trigger] self.ids@[i],
                        id,
                    ) by {
                        if i < mid {
                            assert(id_less(self.ids@[i], self.ids@[mid as int]));
                        }
                    }
                }
                lo = mid + 1;
            } else {
                proof {
                    assert forall|i: int| mid <= i < self.ids@.len() implies id_less(
                        id,
                        #[trigger] self.ids@[i],
                    ) by {
                        if mid < i {
                            assert(id_less(self.ids@[mid as int], self.ids@[i]));
                        }
                    }
                }
                hi = mid;
            }
        }
        id
    }
}

/// Redirects every reference in an object. A stream's payload is kept.
pub fn remap_references(obj: PdfObject, table: &Redirects) -> (r: PdfObject)
    requires
        table.wf(),
    ensures
        r@ == remapped(obj@, |id: ObjectId| table.target(id)),
{
    match obj {
        PdfObject::Stream(s) => {
            let dict = remap_dict(&s.dict, table);
            PdfObject::Stream(
                PdfStream { dict, content: s.content, compressible: s.compressible },
            )
        },
        _ => remap_copy(&obj, table),
    }
}

/// A copy of an object with every reference redirected.
fn remap_copy(obj: &PdfObject, table: &Redirects) -> (r: PdfObject)
    requires
        table.wf(),
    ensures
        r@ == remapped(obj@, |id: ObjectId| table.target(id)),
    decreases obj,
{
    let ghost f = |id: ObjectId| table.target(id);
    match obj {
        PdfObject::Reference(id) => PdfObject::Reference(table.redirected(*id)),
        PdfObject::Array(items) => {
            let ghost list = obj@->Array_0;
            let mut out: Vec<PdfObject> = Vec::new();
            let mut i: usize = 0;
            while i < items.len()
                invariant
                    i <= items@.len(),
                    table.wf(),
                    f == |id: ObjectId| table.target(id),
                    *obj == PdfObject::Array(*items),
                    list == obj@->Array_0,
                    list.len() == items@.len(),
                    out@.len() == i,
                    forall|k: int| 0 <= k < i ==> object_view(#[trigger] out@[k]) == remapped(list[k], f),
                decreases items@.len() - i,
            {
                proof {
                    assert(decreases_to!(*obj => obj->Array_0));
                    assert(decreases_to!(items => items[i as int]));
                    assert(list[i as int] == object_view(items@[i as int]));
                }
                out.push(remap_copy(&items[i], table));
                i += 1;
            }
            let r = PdfObject::Array(out);
            proof {
                assert(r@->Array_0 =~= remapped(obj@, f)->Array_0);
            }
            r
        },
        PdfObject::Dictionary(d) => PdfObject::Dictionary(remap_dict(d, table)),
        PdfObject::Stream(s) => PdfObject::Stream(
            PdfStream {
                dict: remap_dict(&s.dict, table),
                content: s.content.clone(),
                compressible: s.compressible,
            },
        ),
        _ => crate::object::copy_object(obj),
    }
}

/// A copy of a dictionary with every reference redirected.
fn remap_dict(d: &Dict, table: &Redirects) -> (r: Dict)
    requires
        table.wf(),
    ensures
        r@ == remapped_dict(d@, |id: ObjectId| table.target(id)),
    decreases d,
{
    let ghost f = |id: ObjectId| table.target(id);
    let mut out: Vec<Entry> = Vec::new();
    let mut i: usize = 0;
    while i < d.entries.len()
        invariant
            i <= d.entries@.len(),
            table.wf(),
            f == |id: ObjectId| table.target(id),
            d@.len() == d.entries@.len(),
            out@.len() == i,
            forall|k: int|
                0 <= k < i ==> (#[trigger] out@[k]).key@ == d@[k].0 && object_view(out@[k].value)
                    == remapped(d@[k].1, f),
        decreases d.entries@.len() - i,
    {
        proof {
            assert(decreases_to!(d.entries => d.entries[i as int]));
            assert(d@[i as int] == (
                d.entries@[i as int].key@,
                object_view(d.entries@[i as int].value),
            ));
        }
        let key = d.entries[i].key.clone();
        out.push(Entry { key, value: remap_copy(&d.entries[i].value, table) });
        i += 1;
    }
    let r = Dict { entries: out };
    proof {
        assert(r@ =~= remapped_dict(d@, f));
    }
    r
}

/// Whether an index is not its own.
fn any_moved(canon: &Vec<usize>) -> (r: bool)
    ensures
        r == exists|i: int| 0 <= i < canon@.len() && #[trigger] canon@[i] != i,
{
    let mut i: usize = 0;
    while i < canon.len()
        invariant
            i <= canon@.len(),
            forall|k: int| 0 <= k < i ==> #[trigger] canon@[k] == k,
        decreases canon@.len() - i,
    {
        if canon[i] != i {
            return true;
        }
        i += 1;
    }
    false
}

/// The identifiers of a document and what takes their place.
fn build_redirects(doc: &Pdf, canon: Vec<usize>) -> (r: Redirects)
    requires
        doc.wf(),
        canon@.len() == doc.objects@.len(),
        forall|i: int| 0 <= i < canon@.len() ==> #[trigger] canon@[i] < canon@.len(),
    ensures
        r.wf(),
        r.to@ == canon@,
        r.ids@.len() == canon@.len(),
        forall|i: int| 0 <= i < canon@.len() ==> #[trigger] r.ids@[i] == doc@.objects[i].0,
{
    let mut ids: Vec<ObjectId> = Vec::new();
    let mut i: usize = 0;
    while i < doc.objects.len()
        invariant
            i <= doc.objects@.len(),
            ids@.len() == i,
            forall|k: int| 0 <= k < i ==> #[trigger] ids@[k] == doc@.objects[k].0,
        decreases doc.objects@.len() - i,
    {
        ids.push(doc.objects[i].id);
        i += 1;
    }
    proof {
        assert forall|i: int, j: int| 0 <= i < j < ids@.len() implies id_less(
            #[trigger] ids@[i],
            #[trigger] ids@[j],
        ) by {
            assert(id_less(doc@.objects[i].0, doc@.objects[j].0));
        }
    }
    Redirects { ids, to: canon }
}

/// The table sends an identifier where the merge does.
proof fn lemma_table(k: Sameness, objects: Seq<(ObjectId, Value)>, table: Redirects, id: ObjectId)
    requires
        ids_ascend(objects),
        table.wf(),
        table.ids@.len() == objects.len(),
        forall|i: int| 0 <= i < objects.len() ==> #[trigger] table.ids@[i] == objects[i].0,
        forall|i: int| 0 <= i < objects.len() ==> #[trigger] table.to@[i] == canonical(k, objects, i),
    ensures
        table.target(id) == redirect(k, objects, id),
{
    if exists|i: int| 0 <= i < table.ids@.len() && #[trigger] table.ids@[i] == id {
        let i = choose|i: int| 0 <= i < table.ids@.len() && #[trigger] table.ids@[i] == id;
        assert(objects[i].0 == id);
        lemma_object_index(objects, i);
        assert(object_index(objects, id) == Some(i));
        assert(table.to@[i] == canonical(k, objects, i));
        assert(table.ids@[table.to@[i] as int] == objects[canonical(k, objects, i)].0);
    } else {
        if object_index(objects, id) is Some {
            let i = choose|i: int| 0 <= i < objects.len() && (#[trigger] objects[i]).0 == id;
            assert(table.ids@[i] == id);
        }
    }
}

/// What stays keeps its order.
proof fn lemma_kept_ascends(
    k: Sameness,
    objects: Seq<(ObjectId, Value)>,
    f: spec_fn(ObjectId) -> ObjectId,
    n: int,
)
    requires
        ids_ascend(objects),
        0 <= n <= objects.len(),
    ensures
        ids_ascend(kept(k, objects, f, n)),
        kept(k, objects, f, n).len() <= n,
        n > 0 ==> forall|i: int|
            0 <= i < kept(k, objects, f, n).len() ==> !id_less(
                objects[n - 1].0,
                (#[trigger] kept(k, objects, f, n)[i]).0,
            ),
        (exists|i: int| 0 <= i < n && #[trigger] canonical(k, objects, i) != i) ==> kept(
            k,
            objects,
            f,
            n,
        ).len() < n,
    decreases n,
{
    if n > 0 {
        lemma_kept_ascends(k, objects, f, n - 1);
        let before = kept(k, objects, f, n - 1);
        if n > 1 {
            assert(id_less(objects[n - 2].0, objects[n - 1].0));
        }
        assert forall|i: int| 0 <= i < before.len() implies id_less(
            (#[trigger] before[i]).0,
            objects[n - 1].0,
        ) by {
            if n > 1 {
                assert(!id_less(objects[n - 2].0, before[i].0));
            }
        }
        if canonical(k, objects, n - 1) == n - 1 && exists|i: int|
            0 <= i < n && #[trigger] canonical(k, objects, i) != i {
            let i = choose|i: int| 0 <= i < n && #[trigger] canonical(k, objects, i) != i;
            assert(i < n - 1);
        }
    }
}

/// Takes the objects that stay, with references redirected, out of a list.
fn keep_objects(objects: Vec<Indirect>, table: &Redirects, Ghost(k): Ghost<Sameness>) -> (r: Vec<
    Indirect,
>)
    requires
        table.wf(),
        table.to@.len() == objects@.len(),
        forall|i: int|
            0 <= i < objects@.len() ==> #[trigger] table.to@[i] == canonical(
                k,
                indirect_views(objects@),
                i,
            ),
    ensures
        indirect_views(r@) == kept(
            k,
            indirect_views(objects@),
            |id: ObjectId| table.target(id),
            objects@.len() as int,
        ),
{
    let ghost all = indirect_views(objects@);
    let ghost f = |id: ObjectId| table.target(id);
    let ghost source = objects@;
    let ghost goal = kept(k, all, f, source.len() as int);
    let mut rest = objects;
    let mut reversed: Vec<Indirect> = Vec::new();
    let ghost mut n: int = source.len() as int;
    proof {
        assert(rest@ =~= source.take(n));
        assert(goal =~= kept(k, all, f, n) + indirect_views(reversed@).reverse());
    }
    while rest.len() > 0
        invariant
            table.wf(),
            table.to@.len() == source.len(),
            f == |id: ObjectId| table.target(id),
            all == indirect_views(source),
            n == rest@.len(),
            rest@ == source.take(n),
            0 <= n <= source.len(),
            forall|i: int|
                0 <= i < source.len() ==> #[trigger] table.to@[i] == canonical(k, all, i),
            goal == kept(k, all, f, n) + indirect_views(reversed@).reverse(),
        decreases rest@.len(),
    {
        let i: usize = rest.len() - 1;
        let ghost before = indirect_views(reversed@);
        match rest.pop() {
            None => {},
            Some(o) => {
                proof {
                    assert(o == source[i as int]);
                    assert(all[i as int] == (o.id, object_view(o.object)));
                    assert(table.to@[i as int] == canonical(k, all, i as int));
                }
                if table.to[i] == i {
                    let id: ObjectId = o.id;
                    let object = remap_references(o.object, table);
                    reversed.push(Indirect { id, object });
                    proof {
                        assert(indirect_views(reversed@) =~= before.push((id, object@)));
                        assert(kept(k, all, f, n) + before.reverse() =~= kept(k, all, f, n - 1)
                            + indirect_views(reversed@).reverse());
                    }
                }
                proof {
                    n = n - 1;
                    assert(rest@ =~= source.take(n));
                }
            },
        }
    }
    let ghost mirror = indirect_views(reversed@).reverse();
    let ghost back = reversed@;
    let mut out: Vec<Indirect> = Vec::new();
    proof {
        assert(goal =~= mirror);
        assert(reversed@ =~= back.take(reversed@.len() as int));
        assert(indirect_views(out@) =~= mirror.take(0));
    }
    while reversed.len() > 0
        invariant
            mirror == indirect_views(back).reverse(),
            reversed@ == back.take(reversed@.len() as int),
            reversed@.len() <= back.len(),
            indirect_views(out@) == mirror.take(back.len() - reversed@.len()),
        decreases reversed@.len(),
    {
        let ghost len = reversed@.len();
        let ghost before = indirect_views(out@);
        match reversed.pop() {
            None => {},
            Some(o) => {
                out.push(o);
                proof {
                    assert(o == back[len - 1]);
                    assert(mirror[back.len() - len] == (o.id, object_view(o.object)));
                    assert(indirect_views(out@) =~= before.push((o.id, object_view(o.object))));
                    assert(indirect_views(out@) =~= mirror.take(back.len() - (len - 1)));
                    assert(reversed@ =~= back.take(len - 1));
                }
            },
        }
    }
    proof {
        assert(mirror.take(back.len() as int) =~= mirror);
    }
    out
}

/// Merges the duplicates of a document; tells whether there were any.
pub fn merge(doc: Pdf, m: &Merge) -> (r: (Pdf, bool))
    requires
        doc.wf(),
        merge_fits(*m, doc.objects@.len()),
    ensures
        r.0@ == merged(m@, doc@),
        r.1 == has_duplicates(m@, doc@.objects),
        r.0.wf(),
        r.1 ==> r.0.objects@.len() < doc.objects@.len(),
        !r.1 ==> r.0.objects@.len() == doc.objects@.len(),
{
    let ghost k = m@;
    let ghost objects = doc@.objects;
    let canon = find_canonical(m, &doc);
    let moved = any_moved(&canon);
    proof {
        assert(moved == has_duplicates(k, objects)) by {
            if moved {
                let i = choose|i: int| 0 <= i < canon@.len() && #[trigger] canon@[i] != i;
                assert(canonical(k, objects, i) != i);
            }
            if has_duplicates(k, objects) {
                let i = choose|i: int|
                    0 <= i < objects.len() && #[trigger] canonical(k, objects, i) != i;
                assert(canon@[i] != i);
            }
        }
        assert forall|i: int| 0 <= i < canon@.len() implies #[trigger] canon@[i] < canon@.len() by {
            lemma_canonical(k, objects, i);
        }
    }
    if !moved {
        return (doc, false);
    }
    let table = build_redirects(&doc, canon);
    let ghost f = |id: ObjectId| table.target(id);
    let ghost g = |id: ObjectId| redirect(k, objects, id);
    proof {
        assert forall|id: ObjectId| #[trigger] f(id) == g(id) by {
            lemma_table(k, objects, table, id);
        }
        assert(f =~= g);
        lemma_kept_ascends(k, objects, f, objects.len() as int);
    }
    let trailer = remap_dict(&doc.trailer, &table);
    let kept_objects = keep_objects(doc.objects, &table, Ghost(k));
    proof {
        assert(indirect_views(kept_objects@) == kept(k, objects, f, objects.len() as int));
        let i = choose|i: int| 0 <= i < objects.len() && #[trigger] canonical(k, objects, i) != i;
        assert(canonical(k, objects, i) != i);
    }
    let out = Pdf {
        version: doc.version,
        binary_mark: doc.binary_mark,
        trailer,
        objects: kept_objects,
        max_id: doc.max_id,
        xref_stream: doc.xref_stream,
        encrypted: doc.encrypted,
    };
    (out, true)
}

/// Merges duplicate objects other than streams. Nodes of the page tree are
/// never merged.
pub fn dedup_objects(doc: Pdf) -> (r: (Pdf, bool))
    requires
        doc.wf(),
    ensures
        r.0@ == merged(Sameness::Objects, doc@),
        r.1 == has_duplicates(Sameness::Objects, doc@.objects),
        r.0.wf(),
        r.1 ==> r.0.objects@.len() < doc.objects@.len(),
        !r.1 ==> r.0.objects@.len() == doc.objects@.len(),
{
    merge(doc, &Merge::Objects)
}

/// Merges streams of equal dictionary and payload: in practice a logo or a
/// picture that was embedded once per page.
pub fn dedup_streams(doc: Pdf) -> (r: (Pdf, bool))
    requires
        doc.wf(),
    ensures
        r.0@ == merged(Sameness::Streams, doc@),
        r.1 == has_duplicates(Sameness::Streams, doc@.objects),
        r.0.wf(),
        r.1 ==> r.0.objects@.len() < doc.objects@.len(),
        !r.1 ==> r.0.objects@.len() == doc.objects@.len(),
{
    merge(doc, &Merge::Streams)
}

/// What a stream decodes to, where its decoding is a plain inflate: its only
/// filter is Flate and it has no parameters.
pub open spec fn flate_payload(objects: Seq<(ObjectId, Value)>, v: Value) -> Option<Seq<u8>> {
    match v {
        Value::Stream(s) => if !absent(s.dict, DECODE_PARMS@) {
            None
        } else {
            match dict_get(s.dict, FILTER@) {
                None => None,
                Some(filter) => if filter_class(objects, filter) == FilterClass::FlateOnly {
                    inflated(s.content, MAX_REDEFLATE_BYTES as nat)
                } else {
                    None
                },
            }
        },
        _ => None,
    }
}

/// What each object of a document decodes to.
pub open spec fn flate_payloads(objects: Seq<(ObjectId, Value)>) -> Seq<Option<Seq<u8>>> {
    Seq::new(objects.len(), |i: int| flate_payload(objects, objects[i].1))
}

/// What a stream decodes to, where its decoding is a plain inflate.
fn read_payload(doc: &Pdf, o: &PdfObject) -> (r: Option<Vec<u8>>)
    requires
        doc.wf(),
    ensures
        opt_view(r) == flate_payload(doc@.objects, o@),
{
    let (filter_key, parms_key): ([u8; 6], [u8; 11]) = (FILTER, DECODE_PARMS);
    match o {
        PdfObject::Stream(s) => {
            if !is_absent(&s.dict, parms_key.as_slice()) {
                return None;
            }
            let filter = s.dict.get(filter_key.as_slice())?;
            if classify_filter(doc, filter) != FilterClass::FlateOnly {
                return None;
            }
            inflate_capped(s.content.as_slice(), MAX_REDEFLATE_BYTES)
        },
        _ => None,
    }
}

/// Merges Flate streams that decode to equal payloads, even where the bytes
/// stored differ: a producer often writes the same font program through
/// independent encoders. What a viewer consumes is the decoded payload, so
/// nothing observable changes.
pub fn dedup_decoded_streams(doc: Pdf) -> (r: (Pdf, bool))
    requires
        doc.wf(),
    ensures
        r.0@ == merged(Sameness::Payloads(flate_payloads(doc@.objects)), doc@),
        r.1 == has_duplicates(Sameness::Payloads(flate_payloads(doc@.objects)), doc@.objects),
        r.0.wf(),
        r.1 ==> r.0.objects@.len() < doc.objects@.len(),
        !r.1 ==> r.0.objects@.len() == doc.objects@.len(),
{
    let ghost goal = flate_payloads(doc@.objects);
    let mut list: Vec<Option<Vec<u8>>> = Vec::new();
    let mut i: usize = 0;
    while i < doc.objects.len()
        invariant
            i <= doc.objects@.len(),
            doc.wf(),
            goal == flate_payloads(doc@.objects),
            list@.len() == i,
            forall|k: int| 0 <= k < i ==> opt_view(#[trigger] list@[k]) == goal[k],
        decreases doc.objects@.len() - i,
    {
        proof {
            assert(doc@.objects[i as int].1 == object_view(doc.objects@[i as int].object));
        }
        let p = read_payload(&doc, &doc.objects[i].object);
        list.push(p);
        i += 1;
    }
    proof {
        assert(opt_views(list@) =~= goal);
    }
    merge(doc, &Merge::Payloads(list))
}

} // verus!
