//! Pages whose content is written anew: what they show afterwards, and what
//! else refers to it.

use crate::gray_laws::set_key_is_there;
use crate::lookup::{lookup, lookup_index, page_content_ids};
use crate::minify::{
    may_merge, part_cost, parts_len, parts_text, reference_count, references_in_entries,
    references_in_items, references_in_objects, references_to, with_page_form, PartValue,
};
use crate::names::{names_spelled_1, names_spelled_2, CONTENTS, FILTER, LENGTH};
use crate::object::{
    dict_get, dict_set, id_less, ids_ascend, lemma_object_index, object_at, object_index,
    DocumentValue, ObjectId, Value,
};
use crate::store::{length_value, new_stream, place_of, with_object};
use vstd::prelude::*;
use vstd::string::StringSliceAdditionalSpecFns;

verus! {

// --- objects ------------------------------------------------------------------------------------------

proof fn lemma_at(objects: Seq<(ObjectId, Value)>, id: ObjectId, i: int)
    requires
        ids_ascend(objects),
        0 <= i < objects.len(),
        objects[i].0 == id,
    ensures
        object_index(objects, id) == Some(i),
        object_at(objects, id) == Some(objects[i].1),
{
    lemma_object_index(objects, i);
}

proof fn lemma_place_found(objects: Seq<(ObjectId, Value)>, id: ObjectId, n: int)
    requires
        ids_ascend(objects),
        0 <= n <= objects.len(),
        forall|i: int| 0 <= i < objects.len() ==> (#[trigger] objects[i]).0 != id,
        forall|i: int| n <= i < objects.len() ==> id_less(id, (#[trigger] objects[i]).0),
    ensures
        0 <= place_of(objects, id, n) <= n,
        forall|i: int|
            0 <= i < place_of(objects, id, n) ==> id_less((#[trigger] objects[i]).0, id),
        forall|i: int|
            place_of(objects, id, n) <= i < objects.len() ==> id_less(id, (#[trigger] objects[i]).0),
    decreases n,
{
    if n > 0 {
        if id_less(objects[n - 1].0, id) {
            assert forall|i: int| 0 <= i < n implies id_less((#[trigger] objects[i]).0, id) by {
                if i < n - 1 {
                    assert(id_less(objects[i].0, objects[n - 1].0));
                }
            }
        } else {
            assert(objects[n - 1].0 != id);
            lemma_place_found(objects, id, n - 1);
        }
    }
}

/// An object that is put in is there, in order, and every other object is
/// what it was.
pub proof fn inserted_object_is_there(
    objects: Seq<(ObjectId, Value)>,
    id: ObjectId,
    v: Value,
    other: ObjectId,
)
    requires
        ids_ascend(objects),
    ensures
        ids_ascend(with_object(objects, id, v)),
        object_at(with_object(objects, id, v), id) == Some(v),
        other != id ==> object_at(with_object(objects, id, v), other) == object_at(objects, other),
{
    let after = with_object(objects, id, v);
    match object_index(objects, id) {
        Some(i) => {
            assert(after == objects.update(i, (id, v)));
            assert(objects[i].0 == id);
            assert forall|a: int, b: int| 0 <= a < b < after.len() implies id_less(
                (#[trigger] after[a]).0,
                (#[trigger] after[b]).0,
            ) by {
                assert(id_less(objects[a].0, objects[b].0));
            }
            lemma_at(after, id, i);
            if other != id {
                match object_index(objects, other) {
                    Some(k) => {
                        assert(after[k] == objects[k]);
                        lemma_at(after, other, k);
                    },
                    None => {
                        assert forall|k: int| 0 <= k < after.len() implies (#[trigger] after[k]).0
                            != other by {
                            assert(objects[k].0 != other);
                        }
                    },
                }
            }
        },
        None => {
            let n = objects.len() as int;
            lemma_place_found(objects, id, n);
            let p = place_of(objects, id, n);
            assert(after == objects.insert(p, (id, v)));
            assert forall|a: int, b: int| 0 <= a < b < after.len() implies id_less(
                (#[trigger] after[a]).0,
                (#[trigger] after[b]).0,
            ) by {
                let x = if a < p {
                    a
                } else {
                    a - 1
                };
                let y = if b < p {
                    b
                } else {
                    b - 1
                };
                if a != p {
                    assert(after[a] == objects[x]);
                }
                if b != p {
                    assert(after[b] == objects[y]);
                }
            }
            assert(after[p] == (id, v));
            lemma_at(after, id, p);
            if other != id {
                match object_index(objects, other) {
                    Some(k) => {
                        let q = if k < p {
                            k
                        } else {
                            k + 1
                        };
                        assert(after[q] == objects[k]);
                        lemma_at(after, other, q);
                    },
                    None => {
                        assert forall|k: int| 0 <= k < after.len() implies (#[trigger] after[k]).0
                            != other by {
                            if k < p {
                                assert(after[k] == objects[k]);
                            } else if k > p {
                                assert(after[k] == objects[k - 1]);
                            }
                        }
                    },
                }
            }
        },
    }
}

// --- pages --------------------------------------------------------------------------------------------

/// A page whose contents were several streams has one instead: a new object
/// that holds the new content, to which its `/Contents` leads. No other entry
/// of the page and no other object changes.
pub proof fn merged_page_has_one_stream(
    doc: DocumentValue,
    page: ObjectId,
    d: Seq<(Seq<u8>, Value)>,
    ids: Seq<ObjectId>,
    content: Seq<u8>,
    deflated: bool,
    key: Seq<u8>,
    other: ObjectId,
)
    requires
        ids_ascend(doc.objects),
        forall|i: int| 0 <= i < doc.objects.len() ==> (#[trigger] doc.objects[i]).0.0 <= doc.max_id,
        doc.max_id < u32::MAX,
        ids.len() > 1,
        object_at(doc.objects, page) == Some(Value::Dictionary(d)),
    ensures
        ({
            let r = with_page_form(doc, page, ids, content, deflated);
            let id: ObjectId = ((doc.max_id + 1) as u32, 0u16);
            let after = r.0.objects;
            &&& r.1
            &&& r.0.trailer == doc.trailer
            &&& page_content_ids(after, page) == seq![id]
            &&& object_at(doc.objects, id) is None
            &&& object_at(after, id) is Some && object_at(after, id)->0 is Stream
            &&& ({
                let s = object_at(after, id)->0->Stream_0;
                &&& s.content == content
                &&& dict_get(s.dict, "Filter".spec_bytes()) == (if deflated {
                    Some(Value::Name("FlateDecode".spec_bytes()))
                } else {
                    None
                })
            })
            &&& object_at(after, page) is Some && object_at(after, page)->0 is Dictionary
            &&& key != "Contents".spec_bytes() ==> dict_get(
                object_at(after, page)->0->Dictionary_0,
                key,
            ) == dict_get(d, key)
            &&& other != page && other != id ==> object_at(after, other) == object_at(
                doc.objects,
                other,
            )
        }),
{
    names_spelled_1();
    names_spelled_2();
    let id: ObjectId = ((doc.max_id + 1) as u32, 0u16);
    let flate = Value::Name(crate::names::FLATE_DECODE@);
    let dict = if deflated {
        dict_set(Seq::empty(), FILTER@, flate)
    } else {
        Seq::empty()
    };
    let stream = Value::Stream(new_stream(dict, content));
    let added = with_object(doc.objects, id, stream);
    inserted_object_is_there(doc.objects, id, stream, page);
    inserted_object_is_there(doc.objects, id, stream, other);
    let i0 = object_index(doc.objects, page)->0;
    assert(doc.objects[i0].0.0 <= doc.max_id);
    assert(page != id);
    let i = object_index(added, page)->0;
    assert(added[i].1 == Value::Dictionary(d));
    assert(lookup_index(added, page) == Some(i));
    let changed = dict_set(d, CONTENTS@, Value::Reference(id));
    let after = added.update(i, (added[i].0, Value::Dictionary(changed)));
    assert(with_page_form(doc, page, ids, content, deflated).0.objects == after);
    assert(after == with_object(added, page, Value::Dictionary(changed)));
    inserted_object_is_there(added, page, Value::Dictionary(changed), id);
    inserted_object_is_there(added, page, Value::Dictionary(changed), other);
    set_key_is_there(d, CONTENTS@, Value::Reference(id), key);
    assert(lookup(after, page) == Some(Value::Dictionary(changed)));
    reveal_with_fuel(crate::lookup::content_ids, 2);
    assert(page_content_ids(after, page) == seq![id]);
    assert(object_at(doc.objects, id) is None) by {
        assert forall|k: int| 0 <= k < doc.objects.len() implies (#[trigger] doc.objects[k]).0
            != id by {
            assert(doc.objects[k].0.0 <= doc.max_id);
        }
    }
    set_key_is_there(Seq::empty(), FILTER@, flate, FILTER@);
    set_key_is_there(dict, LENGTH@, length_value(content.len()), FILTER@);
    assert(FILTER@[0] != LENGTH@[0]);
}

/// The text of several parts is each of them, ended by a line feed: a part
/// more only adds its own, and its length counts without the line feed.
pub proof fn parts_are_joined(parts: Seq<PartValue>, p: PartValue)
    ensures
        parts_text(parts.push(p), parts.len() as int + 1) == parts_text(
            parts,
            parts.len() as int,
        ) + p.bytes + seq![0x0Au8],
        parts_len(parts.push(p), parts.len() as int + 1) == parts_len(parts, parts.len() as int)
            + p.bytes.len(),
{
    lemma_same_text(parts, parts.push(p), parts.len() as int);
}

proof fn lemma_same_text(a: Seq<PartValue>, b: Seq<PartValue>, n: int)
    requires
        n <= a.len(),
        n <= b.len(),
        forall|i: int| 0 <= i < n ==> a[i] == b[i],
    ensures
        parts_text(a, n) == parts_text(b, n),
        parts_len(a, n) == parts_len(b, n),
    decreases n,
{
    if n > 0 {
        lemma_same_text(a, b, n - 1);
    }
}

/// A part never costs more than it takes as it is stored.
pub proof fn part_costs_no_more_than_stored(p: PartValue, deflated: Option<Seq<u8>>)
    ensures
        part_cost(p, deflated) <= p.stored,
        deflated is None ==> part_cost(p, deflated) == p.stored,
        deflated is Some && p.filtered && (deflated->0).len() <= p.stored ==> part_cost(
            p,
            deflated,
        ) == (deflated->0).len(),
{
}

// --- references ---------------------------------------------------------------------------------------

/// The value is, or holds at any depth, a reference to the object.
pub open spec fn mentions(v: Value, id: ObjectId) -> bool
    decreases v,
{
    match v {
        Value::Reference(r) => r == id,
        Value::Array(items) => item_mentions(items, id),
        Value::Dictionary(d) => entry_mentions(d, id),
        Value::Stream(s) => entry_mentions(s.dict, id),
        _ => false,
    }
}

/// An item is, or holds, a reference to the object.
pub open spec fn item_mentions(items: Seq<Value>, id: ObjectId) -> bool
    decreases items,
{
    exists|i: int| 0 <= i < items.len() && mentions(#[trigger] items[i], id)
}

/// An entry holds a reference to the object.
pub open spec fn entry_mentions(d: Seq<(Seq<u8>, Value)>, id: ObjectId) -> bool
    decreases d,
{
    exists|i: int| 0 <= i < d.len() && mentions((#[trigger] d[i]).1, id)
}

/// The references to an object are counted at every depth: there is one
/// where the value mentions the object, and none where it does not.
pub proof fn mentioned_objects_are_counted(v: Value, id: ObjectId)
    ensures
        references_to(v, id) > 0 <==> mentions(v, id),
    decreases v, 1int, 0int,
{
    match v {
        Value::Array(items) => lemma_items(items, id, items.len() as int),
        Value::Dictionary(d) => lemma_entries(d, id, d.len() as int),
        Value::Stream(s) => lemma_entries(s.dict, id, s.dict.len() as int),
        _ => {},
    }
}

proof fn lemma_items(items: Seq<Value>, id: ObjectId, n: int)
    requires
        0 <= n <= items.len(),
    ensures
        references_in_items(items, id, n) > 0 <==> exists|i: int|
            0 <= i < n && mentions(#[trigger] items[i], id),
    decreases items, 0int, n,
{
    if n > 0 {
        lemma_items(items, id, n - 1);
        mentioned_objects_are_counted(items[n - 1], id);
        if references_to(items[n - 1], id) > 0 {
            assert(mentions(items[n - 1], id));
        }
        if exists|i: int| 0 <= i < n && mentions(#[trigger] items[i], id) {
            let i = choose|i: int| 0 <= i < n && mentions(#[trigger] items[i], id);
            if i < n - 1 {
                assert(mentions(items[i], id));
            }
        }
    }
}

proof fn lemma_entries(d: Seq<(Seq<u8>, Value)>, id: ObjectId, n: int)
    requires
        0 <= n <= d.len(),
    ensures
        references_in_entries(d, id, n) > 0 <==> exists|i: int|
            0 <= i < n && mentions((#[trigger] d[i]).1, id),
    decreases d, 0int, n,
{
    if n > 0 {
        lemma_entries(d, id, n - 1);
        mentioned_objects_are_counted(d[n - 1].1, id);
        if references_to(d[n - 1].1, id) > 0 {
            assert(mentions(d[n - 1].1, id));
        }
        if exists|i: int| 0 <= i < n && mentions((#[trigger] d[i]).1, id) {
            let i = choose|i: int| 0 <= i < n && mentions((#[trigger] d[i]).1, id);
            if i < n - 1 {
                assert(mentions(d[i].1, id));
            }
        }
    }
}

/// An item more counts what it refers to.
pub proof fn references_add_up(items: Seq<Value>, v: Value, id: ObjectId)
    ensures
        references_to(Value::Array(items.push(v)), id) == references_to(Value::Array(items), id)
            + references_to(v, id),
        references_to(Value::Reference(id), id) == 1,
{
    lemma_same_items(items, items.push(v), id, items.len() as int);
}

proof fn lemma_same_items(a: Seq<Value>, b: Seq<Value>, id: ObjectId, n: int)
    requires
        0 <= n <= a.len(),
        n <= b.len(),
        forall|i: int| 0 <= i < n ==> a[i] == b[i],
    ensures
        references_in_items(a, id, n) == references_in_items(b, id, n),
    decreases n,
{
    if n > 0 {
        lemma_same_items(a, b, id, n - 1);
    }
}

proof fn lemma_objects(objects: Seq<(ObjectId, Value)>, id: ObjectId, n: int, i: int, j: int)
    requires
        0 <= n <= objects.len(),
    ensures
        0 <= i < n && mentions(objects[i].1, id) ==> references_in_objects(objects, id, n) >= 1,
        0 <= i < j < n && mentions(objects[i].1, id) && mentions(objects[j].1, id)
            ==> references_in_objects(objects, id, n) >= 2,
    decreases n,
{
    if n > 0 {
        lemma_objects(objects, id, n - 1, i, j);
        mentioned_objects_are_counted(objects[n - 1].1, id);
    }
}

/// The streams of a page are not merged where one of them is referred to by
/// two objects: the other user would lose it.
pub proof fn shared_streams_are_not_merged(
    doc: DocumentValue,
    ids: Seq<ObjectId>,
    k: int,
    i: int,
    j: int,
)
    requires
        ids.len() > 1,
        0 <= k < ids.len(),
        0 <= i < j < doc.objects.len(),
        mentions(doc.objects[i].1, ids[k]),
        mentions(doc.objects[j].1, ids[k]),
    ensures
        !may_merge(doc, ids),
{
    lemma_objects(doc.objects, ids[k], doc.objects.len() as int, i, j);
    assert(reference_count(doc, ids[k]) >= 2);
}

} // verus!
