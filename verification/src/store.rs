//! Changing what a document holds: payloads of streams, entries of their
//! dictionaries, and new objects.

use crate::names::{DECODE_PARMS, FILTER, FLATE_DECODE, LENGTH};
use crate::object::{
    dict_remove, dict_set, id_less, ids_ascend, object_index, Dict, DocumentValue, Indirect,
    ObjectId, Pdf, PdfObject, PdfStream, StreamValue, Value,
};
use vstd::prelude::*;

verus! {

/// A length as a dictionary holds it.
pub open spec fn length_value(n: nat) -> Value {
    Value::Integer(n as i64)
}

/// A stream with a new payload and the length to match.
pub open spec fn with_content(s: StreamValue, content: Seq<u8>) -> StreamValue {
    StreamValue {
        dict: dict_set(s.dict, LENGTH@, length_value(content.len())),
        content,
        compressible: s.compressible,
    }
}

/// Gives a stream a new payload.
pub fn set_content(s: &mut PdfStream, content: Vec<u8>)
    ensures
        final(s)@ == with_content(old(s)@, content@),
{
    let key: [u8; 6] = LENGTH;
    let len: usize = content.len();
    s.content = content;
    #[verifier::truncate]
    let value: i64 = len as i64;
    s.dict.set(key.as_slice(), PdfObject::Integer(value));
}

/// A stream whose payload is plain Flate, or nothing but itself.
pub open spec fn with_flate_content(s: StreamValue, content: Seq<u8>, deflated: bool) -> StreamValue {
    let t = with_content(s, content);
    let dict = if deflated {
        dict_set(t.dict, FILTER@, Value::Name(FLATE_DECODE@))
    } else {
        dict_remove(t.dict, FILTER@)
    };
    StreamValue { dict: dict_remove(dict, DECODE_PARMS@), ..t }
}

/// The name `FlateDecode`.
pub fn flate_name() -> (r: PdfObject)
    ensures
        r@ == Value::Name(FLATE_DECODE@),
{
    let name: [u8; 11] = FLATE_DECODE;
    PdfObject::Name(crate::bytes::to_vec(name.as_slice()))
}

/// Gives a stream a payload that is plain Flate, or nothing but itself.
pub fn set_flate_content(s: &mut PdfStream, content: Vec<u8>, deflated: bool)
    ensures
        final(s)@ == with_flate_content(old(s)@, content@, deflated),
{
    let (filter_key, parms_key): ([u8; 6], [u8; 11]) = (FILTER, DECODE_PARMS);
    set_content(s, content);
    if deflated {
        s.dict.set(filter_key.as_slice(), flate_name());
    } else {
        s.dict.remove(filter_key.as_slice());
    }
    s.dict.remove(parms_key.as_slice());
}

/// A new stream with this dictionary and payload.
pub open spec fn new_stream(dict: Seq<(Seq<u8>, Value)>, content: Seq<u8>) -> StreamValue {
    StreamValue {
        dict: dict_set(dict, LENGTH@, length_value(content.len())),
        content,
        compressible: true,
    }
}

/// Makes a stream.
pub fn make_stream(dict: Dict, content: Vec<u8>) -> (r: PdfStream)
    ensures
        r@ == new_stream(dict@, content@),
{
    let key: [u8; 6] = LENGTH;
    let len: usize = content.len();
    let mut d = dict;
    #[verifier::truncate]
    let value: i64 = len as i64;
    d.set(key.as_slice(), PdfObject::Integer(value));
    PdfStream { dict: d, content, compressible: true }
}

/// Where an object with identifier `id` belongs among the first `n`.
pub open spec fn place_of(objects: Seq<(ObjectId, Value)>, id: ObjectId, n: int) -> int
    decreases n,
{
    if n <= 0 || id_less(objects[n - 1].0, id) {
        n
    } else {
        place_of(objects, id, n - 1)
    }
}

/// The objects with `v` under the identifier `id`: in the place of what was
/// there, else where it belongs.
pub open spec fn with_object(
    objects: Seq<(ObjectId, Value)>,
    id: ObjectId,
    v: Value,
) -> Seq<(ObjectId, Value)> {
    match object_index(objects, id) {
        Some(i) => objects.update(i, (id, v)),
        None => objects.insert(place_of(objects, id, objects.len() as int), (id, v)),
    }
}

proof fn lemma_place(objects: Seq<(ObjectId, Value)>, id: ObjectId, n: int)
    requires
        ids_ascend(objects),
        0 <= n <= objects.len(),
        object_index(objects, id) is None,
        forall|k: int| n <= k < objects.len() ==> id_less(id, (#[trigger] objects[k]).0),
    ensures
        ({
            let p = place_of(objects, id, n);
            &&& 0 <= p <= n
            &&& forall|k: int| 0 <= k < p ==> id_less((#[trigger] objects[k]).0, id)
            &&& forall|k: int| p <= k < objects.len() ==> id_less(id, (#[trigger] objects[k]).0)
        }),
    decreases n,
{
    if n > 0 {
        assert(objects[n - 1].0 != id);
        if id_less(objects[n - 1].0, id) {
            assert forall|k: int| 0 <= k < n implies id_less((#[trigger] objects[k]).0, id) by {
                if k < n - 1 {
                    assert(id_less(objects[k].0, objects[n - 1].0));
                }
            }
        } else {
            lemma_place(objects, id, n - 1);
        }
    }
}

impl Pdf {
    /// Puts an object under the identifier `id`.
    pub fn insert(&mut self, id: ObjectId, object: PdfObject)
        requires
            old(self).wf(),
        ensures
            final(self)@ == (DocumentValue {
                objects: with_object(old(self)@.objects, id, object@),
                ..old(self)@
            }),
            final(self).wf(),
            final(self).objects@.len() <= old(self).objects@.len() + 1,
    {
        let ghost before = self@.objects;
        match self.find(id) {
            Some(i) => {
                proof {
                    assert(before[i as int].0 == id);
                }
                self.put(i, object);
            },
            None => {
                let mut p: usize = self.objects.len();
                while p > 0 && !(self.objects[p - 1].id.0 < id.0 || (self.objects[p - 1].id.0
                    == id.0 && self.objects[p - 1].id.1 < id.1))
                    invariant
                        p <= self.objects@.len(),
                        before == self@.objects,
                        place_of(before, id, before.len() as int) == place_of(before, id, p as int),
                    decreases p,
                {
                    proof {
                        assert(before[p - 1].0 == self.objects@[p - 1].id);
                    }
                    p -= 1;
                }
                proof {
                    if p > 0 {
                        assert(before[p - 1].0 == self.objects@[p - 1].id);
                    }
                    lemma_place(before, id, before.len() as int);
                }
                self.objects.insert(p, Indirect { id, object });
                proof {
                    assert(self@.objects =~= before.insert(p as int, (id, object@)));
                    let after = self@.objects;
                    assert forall|i: int, j: int| 0 <= i < j < after.len() implies id_less(
                        (#[trigger] after[i]).0,
                        (#[trigger] after[j]).0,
                    ) by {
                        let a = if i < p {
                            i
                        } else {
                            i - 1
                        };
                        let b = if j < p {
                            j
                        } else {
                            j - 1
                        };
                        if i != p && j != p {
                            assert(id_less(before[a].0, before[b].0));
                        } else if i == p {
                            assert(id_less(id, before[b].0));
                        } else {
                            assert(id_less(before[a].0, id));
                        }
                    }
                }
            },
        }
    }
}

} // verus!
