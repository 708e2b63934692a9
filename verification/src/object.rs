//! The object model: PDF objects, dictionaries and whole documents as plain
//! values, each with its mathematical content.

use crate::bytes::same_bytes;
use vstd::prelude::*;

verus! {

/// Object number and generation.
pub type ObjectId = (u32, u16);

/// A PDF object.
pub enum PdfObject {
    Null,
    Boolean(bool),
    Integer(i64),
    /// A real number, by the shortest decimal spelling of its
    /// single-precision value.
    Real(Vec<u8>),
    Name(Vec<u8>),
    /// A string, and whether it is written in hexadecimal.
    Text(Vec<u8>, bool),
    Array(Vec<PdfObject>),
    Dictionary(Dict),
    Stream(PdfStream),
    Reference(ObjectId),
}

/// A dictionary: entries in the order of insertion.
pub struct Dict {
    pub entries: Vec<Entry>,
}

/// One dictionary entry.
pub struct Entry {
    pub key: Vec<u8>,
    pub value: PdfObject,
}

/// A stream: dictionary, payload, and whether saving may compress it.
pub struct PdfStream {
    pub dict: Dict,
    pub content: Vec<u8>,
    pub compressible: bool,
}

/// An object of a document with its identifier.
pub struct Indirect {
    pub id: ObjectId,
    pub object: PdfObject,
}

/// A document. The objects stand in ascending order of their identifiers.
pub struct Pdf {
    pub version: Vec<u8>,
    pub binary_mark: Vec<u8>,
    pub trailer: Dict,
    pub objects: Vec<Indirect>,
    pub max_id: u32,
    /// Saved with a cross-reference stream rather than a table.
    pub xref_stream: bool,
    /// The file it was read from was encrypted.
    pub encrypted: bool,
}

/// The content of an object.
pub enum Value {
    Null,
    Boolean(bool),
    Integer(i64),
    Real(Seq<u8>),
    Name(Seq<u8>),
    Text(Seq<u8>, bool),
    Array(Seq<Value>),
    Dictionary(Seq<(Seq<u8>, Value)>),
    Stream(StreamValue),
    Reference(ObjectId),
}

/// The content of a stream.
pub struct StreamValue {
    pub dict: Seq<(Seq<u8>, Value)>,
    pub content: Seq<u8>,
    pub compressible: bool,
}

/// The content of a document.
pub struct DocumentValue {
    pub version: Seq<u8>,
    pub binary_mark: Seq<u8>,
    pub trailer: Seq<(Seq<u8>, Value)>,
    pub objects: Seq<(ObjectId, Value)>,
    pub max_id: u32,
    pub xref_stream: bool,
    pub encrypted: bool,
}

/// The content of a dictionary.
pub open spec fn dict_view(d: Dict) -> Seq<(Seq<u8>, Value)>
    decreases d,
{
    Seq::new(
        d.entries@.len(),
        |i: int|
            if 0 <= i < d.entries@.len() {
                (d.entries@[i].key@, object_view(d.entries@[i].value))
            } else {
                (Seq::empty(), Value::Null)
            },
    )
}

/// The content of an object.
pub open spec fn object_view(o: PdfObject) -> Value
    decreases o,
{
    match o {
        PdfObject::Null => Value::Null,
        PdfObject::Boolean(b) => Value::Boolean(b),
        PdfObject::Integer(i) => Value::Integer(i),
        PdfObject::Real(text) => Value::Real(text@),
        PdfObject::Name(n) => Value::Name(n@),
        PdfObject::Text(t, hex) => Value::Text(t@, hex),
        PdfObject::Array(items) => Value::Array(
            Seq::new(
                items@.len(),
                |i: int|
                    if 0 <= i < items@.len() {
                        object_view(items@[i])
                    } else {
                        Value::Null
                    },
            ),
        ),
        PdfObject::Dictionary(d) => Value::Dictionary(dict_view(d)),
        PdfObject::Stream(s) => Value::Stream(
            StreamValue {
                dict: dict_view(s.dict),
                content: s.content@,
                compressible: s.compressible,
            },
        ),
        PdfObject::Reference(id) => Value::Reference(id),
    }
}

/// The contents of a list of objects.
pub open spec fn values(items: Seq<PdfObject>) -> Seq<Value> {
    Seq::new(
        items.len(),
        |i: int|
            if 0 <= i < items.len() {
                object_view(items[i])
            } else {
                Value::Null
            },
    )
}

impl View for PdfObject {
    type V = Value;

    open spec fn view(&self) -> Value {
        object_view(*self)
    }
}

impl View for Dict {
    type V = Seq<(Seq<u8>, Value)>;

    open spec fn view(&self) -> Seq<(Seq<u8>, Value)> {
        dict_view(*self)
    }
}

impl View for PdfStream {
    type V = StreamValue;

    open spec fn view(&self) -> StreamValue {
        StreamValue {
            dict: dict_view(self.dict),
            content: self.content@,
            compressible: self.compressible,
        }
    }
}

/// The contents of the objects of a document.
pub open spec fn indirect_views(objects: Seq<Indirect>) -> Seq<(ObjectId, Value)> {
    objects.map_values(|o: Indirect| (o.id, object_view(o.object)))
}

impl View for Pdf {
    type V = DocumentValue;

    open spec fn view(&self) -> DocumentValue {
        DocumentValue {
            version: self.version@,
            binary_mark: self.binary_mark@,
            trailer: dict_view(self.trailer),
            objects: indirect_views(self.objects@),
            max_id: self.max_id,
            xref_stream: self.xref_stream,
            encrypted: self.encrypted,
        }
    }
}

// --- equality and copies ---------------------------------------------------------

/// Whether two objects have the same content.
pub fn same_object(a: &PdfObject, b: &PdfObject) -> (r: bool)
    ensures
        r == (a@ == b@),
    decreases a,
{
    match (a, b) {
        (PdfObject::Null, PdfObject::Null) => true,
        (PdfObject::Boolean(x), PdfObject::Boolean(y)) => *x == *y,
        (PdfObject::Integer(x), PdfObject::Integer(y)) => *x == *y,
        (PdfObject::Real(x), PdfObject::Real(y)) => same_bytes(x.as_slice(), y.as_slice()),
        (PdfObject::Name(x), PdfObject::Name(y)) => same_bytes(x.as_slice(), y.as_slice()),
        (PdfObject::Text(x, h), PdfObject::Text(y, k)) => *h == *k && same_bytes(
            x.as_slice(),
            y.as_slice(),
        ),
        (PdfObject::Array(x), PdfObject::Array(y)) => {
            if x.len() != y.len() {
                proof {
                    assert(a@->Array_0.len() != b@->Array_0.len());
                }
                return false;
            }
            let mut i: usize = 0;
            while i < x.len()
                invariant
                    i <= x@.len(),
                    x@.len() == y@.len(),
                    *a == PdfObject::Array(*x),
                    *b == PdfObject::Array(*y),
                    forall|k: int| 0 <= k < i ==> object_view(#[trigger] x@[k]) == object_view(y@[k]),
                decreases x@.len() - i,
            {
                proof {
                    assert(decreases_to!(a => x@[i as int]));
                }
                if !same_object(&x[i], &y[i]) {
                    proof {
                        assert(a@->Array_0[i as int] != b@->Array_0[i as int]);
                    }
                    return false;
                }
                i += 1;
            }
            proof {
                assert(a@->Array_0 =~= b@->Array_0);
            }
            true
        },
        (PdfObject::Dictionary(x), PdfObject::Dictionary(y)) => same_dict(x, y),
        (PdfObject::Stream(x), PdfObject::Stream(y)) => x.compressible == y.compressible && same_bytes(
            x.content.as_slice(),
            y.content.as_slice(),
        ) && same_dict(&x.dict, &y.dict),
        (PdfObject::Reference(x), PdfObject::Reference(y)) => x.0 == y.0 && x.1 == y.1,
        _ => false,
    }
}

/// Whether two dictionaries have the same content, in the same order.
pub fn same_dict(a: &Dict, b: &Dict) -> (r: bool)
    ensures
        r == (a@ == b@),
    decreases a,
{
    let x = &a.entries;
    let y = &b.entries;
    if x.len() != y.len() {
        proof {
            assert(a@.len() != b@.len());
        }
        return false;
    }
    let mut i: usize = 0;
    while i < x.len()
        invariant
            i <= x@.len(),
            x@.len() == y@.len(),
            a.entries == x,
            b.entries == y,
            forall|k: int| 0 <= k < i ==> dict_view(*a)[k] == dict_view(*b)[k],
        decreases x@.len() - i,
    {
        proof {
            assert(decreases_to!(a => x@[i as int]));
            assert(dict_view(*a)[i as int] == (x@[i as int].key@, object_view(x@[i as int].value)));
            assert(dict_view(*b)[i as int] == (y@[i as int].key@, object_view(y@[i as int].value)));
        }
        if !same_bytes(x[i].key.as_slice(), y[i].key.as_slice()) || !same_object(
            &x[i].value,
            &y[i].value,
        ) {
            return false;
        }
        i += 1;
    }
    proof {
        assert(dict_view(*a) =~= dict_view(*b));
    }
    true
}

/// A copy of an object.
pub fn copy_object(o: &PdfObject) -> (r: PdfObject)
    ensures
        r@ == o@,
    decreases o,
{
    match o {
        PdfObject::Null => PdfObject::Null,
        PdfObject::Boolean(b) => PdfObject::Boolean(*b),
        PdfObject::Integer(i) => PdfObject::Integer(*i),
        PdfObject::Real(text) => PdfObject::Real(text.clone()),
        PdfObject::Name(n) => PdfObject::Name(n.clone()),
        PdfObject::Text(t, hex) => PdfObject::Text(t.clone(), *hex),
        PdfObject::Array(items) => {
            let mut out: Vec<PdfObject> = Vec::new();
            let mut i: usize = 0;
            while i < items.len()
                invariant
                    i <= items@.len(),
                    *o == PdfObject::Array(*items),
                    out@.len() == i,
                    forall|k: int|
                        0 <= k < i ==> object_view(#[trigger] out@[k]) == object_view(items@[k]),
                decreases items@.len() - i,
            {
                proof {
                    assert(decreases_to!(*o => o->Array_0));
                    assert(decreases_to!(items => items[i as int]));
                    assert(decreases_to!(o => items[i as int]));
                }
                out.push(copy_object(&items[i]));
                i += 1;
            }
            let r = PdfObject::Array(out);
            proof {
                assert(r@->Array_0 =~= o@->Array_0);
            }
            r
        },
        PdfObject::Dictionary(d) => PdfObject::Dictionary(copy_dict(d)),
        PdfObject::Stream(s) => PdfObject::Stream(
            PdfStream {
                dict: copy_dict(&s.dict),
                content: s.content.clone(),
                compressible: s.compressible,
            },
        ),
        PdfObject::Reference(id) => PdfObject::Reference(*id),
    }
}

/// A copy of a dictionary.
pub fn copy_dict(d: &Dict) -> (r: Dict)
    ensures
        r@ == d@,
    decreases d,
{
    let mut out: Vec<Entry> = Vec::new();
    let mut i: usize = 0;
    while i < d.entries.len()
        invariant
            i <= d.entries@.len(),
            out@.len() == i,
            forall|k: int|
                0 <= k < i ==> (#[trigger] out@[k]).key@ == d.entries@[k].key@ && object_view(
                    out@[k].value,
                ) == object_view(d.entries@[k].value),
        decreases d.entries@.len() - i,
    {
        proof {
            assert(decreases_to!(d => d.entries@[i as int]));
        }
        let key = d.entries[i].key.clone();
        out.push(Entry { key, value: copy_object(&d.entries[i].value) });
        i += 1;
    }
    let r = Dict { entries: out };
    proof {
        assert(r@ =~= d@);
    }
    r
}

// --- dictionaries ---------------------------------------------------------------------

/// Index of the entry with key `key`, from `i` on.
pub open spec fn dict_index_from(d: Seq<(Seq<u8>, Value)>, key: Seq<u8>, i: int) -> Option<int>
    decreases d.len() - i,
{
    if i < 0 || i >= d.len() {
        None
    } else if d[i].0 == key {
        Some(i)
    } else {
        dict_index_from(d, key, i + 1)
    }
}

/// Index of the entry with key `key`.
pub open spec fn dict_index(d: Seq<(Seq<u8>, Value)>, key: Seq<u8>) -> Option<int> {
    dict_index_from(d, key, 0)
}

/// The value of `key`.
pub open spec fn dict_get(d: Seq<(Seq<u8>, Value)>, key: Seq<u8>) -> Option<Value> {
    match dict_index(d, key) {
        Some(i) => Some(d[i].1),
        None => None,
    }
}

/// Whether there is an entry with key `key`.
pub open spec fn dict_has(d: Seq<(Seq<u8>, Value)>, key: Seq<u8>) -> bool {
    dict_index(d, key) is Some
}

/// The dictionary with the value of `key` set: in place where the key is
/// there, else at the end.
pub open spec fn dict_set(d: Seq<(Seq<u8>, Value)>, key: Seq<u8>, value: Value) -> Seq<
    (Seq<u8>, Value),
> {
    match dict_index(d, key) {
        Some(i) => d.update(i, (d[i].0, value)),
        None => d.push((key, value)),
    }
}

/// The dictionary without `key`; the last entry takes its place.
pub open spec fn dict_remove(d: Seq<(Seq<u8>, Value)>, key: Seq<u8>) -> Seq<(Seq<u8>, Value)> {
    match dict_index(d, key) {
        Some(i) => d.update(i, d.last()).drop_last(),
        None => d,
    }
}

/// An index that is found is the place of the key.
pub proof fn lemma_dict_index(d: Seq<(Seq<u8>, Value)>, key: Seq<u8>, i: int)
    ensures
        match dict_index_from(d, key, i) {
            Some(k) => i <= k < d.len() && d[k].0 == key,
            None => i >= 0 ==> forall|k: int| i <= k < d.len() ==> (#[trigger] d[k]).0 != key,
        },
    decreases d.len() - i,
{
    if !(i < 0 || i >= d.len() || d[i].0 == key) {
        lemma_dict_index(d, key, i + 1);
    }
}

impl Dict {
    /// An empty dictionary.
    pub fn new() -> (r: Dict)
        ensures
            r@ == Seq::<(Seq<u8>, Value)>::empty(),
    {
        let r = Dict { entries: Vec::new() };
        proof {
            assert(r@ =~= Seq::<(Seq<u8>, Value)>::empty());
        }
        r
    }

    /// Index of the entry with key `key`.
    pub fn position(&self, key: &[u8]) -> (r: Option<usize>)
        ensures
            match r {
                Some(i) => dict_index(self@, key@) == Some(i as int) && i < self.entries@.len(),
                None => dict_index(self@, key@) is None,
            },
    {
        let mut i: usize = 0;
        while i < self.entries.len()
            invariant
                i <= self.entries@.len(),
                dict_index(self@, key@) == dict_index_from(self@, key@, i as int),
            decreases self.entries@.len() - i,
        {
            proof {
                assert(self@[i as int].0 == self.entries@[i as int].key@);
            }
            if same_bytes(self.entries[i].key.as_slice(), key) {
                return Some(i);
            }
            i += 1;
        }
        None
    }

    /// The value of `key`.
    pub fn get(&self, key: &[u8]) -> (r: Option<&PdfObject>)
        ensures
            match r {
                Some(o) => dict_get(self@, key@) == Some(o@) && decreases_to!(self => o),
                None => dict_get(self@, key@) is None,
            },
    {
        match self.position(key) {
            Some(i) => {
                proof {
                    assert(self@[i as int].1 == object_view(self.entries@[i as int].value));
                    assert(decreases_to!(self => self.entries@[i as int]));
                }
                Some(&self.entries[i].value)
            },
            None => None,
        }
    }

    /// Whether there is an entry with key `key`.
    pub fn has(&self, key: &[u8]) -> (r: bool)
        ensures
            r == dict_has(self@, key@),
    {
        self.position(key).is_some()
    }

    /// Sets the value of `key`.
    pub fn set(&mut self, key: &[u8], value: PdfObject)
        ensures
            final(self)@ == dict_set(old(self)@, key@, value@),
    {
        let ghost before = self@;
        match self.position(key) {
            Some(i) => {
                let own = self.entries[i].key.clone();
                proof {
                    assert(before[i as int].0 == self.entries@[i as int].key@);
                }
                self.entries.set(i, Entry { key: own, value });
                proof {
                    assert(self@ =~= before.update(i as int, (before[i as int].0, value@)));
                }
            },
            None => {
                self.entries.push(Entry { key: crate::bytes::to_vec(key), value });
                proof {
                    assert(self@ =~= before.push((key@, value@)));
                }
            },
        }
    }

    /// Removes `key`.
    pub fn remove(&mut self, key: &[u8])
        ensures
            final(self)@ == dict_remove(old(self)@, key@),
    {
        let ghost before = self@;
        match self.position(key) {
            Some(i) => {
                let ghost entries = self.entries@;
                let gone = self.entries.swap_remove(i);
                proof {
                    let last = entries.len() - 1;
                    assert(before[last] == (entries[last].key@, object_view(entries[last].value)));
                    assert(self@ =~= before.update(i as int, before.last()).drop_last());
                }
            },
            None => {},
        }
    }
}

// --- documents ----------------------------------------------------------------------------

/// `a` comes before `b`.
pub open spec fn id_less(a: ObjectId, b: ObjectId) -> bool {
    a.0 < b.0 || (a.0 == b.0 && a.1 < b.1)
}

/// The objects stand in strictly ascending order of their identifiers.
pub open spec fn ids_ascend(objects: Seq<(ObjectId, Value)>) -> bool {
    forall|i: int, j: int|
        0 <= i < j < objects.len() ==> id_less((#[trigger] objects[i]).0, (#[trigger] objects[j]).0)
}

/// Index of the object `id`.
pub open spec fn object_index(objects: Seq<(ObjectId, Value)>, id: ObjectId) -> Option<int> {
    if exists|i: int| 0 <= i < objects.len() && (#[trigger] objects[i]).0 == id {
        Some(choose|i: int| 0 <= i < objects.len() && (#[trigger] objects[i]).0 == id)
    } else {
        None
    }
}

/// The object `id`.
pub open spec fn object_at(objects: Seq<(ObjectId, Value)>, id: ObjectId) -> Option<Value> {
    match object_index(objects, id) {
        Some(i) => Some(objects[i].1),
        None => None,
    }
}

/// In an ascending list an identifier has one place.
pub proof fn lemma_object_index(objects: Seq<(ObjectId, Value)>, i: int)
    requires
        ids_ascend(objects),
        0 <= i < objects.len(),
    ensures
        object_index(objects, objects[i].0) == Some(i),
{
    let id = objects[i].0;
    let k = choose|k: int| 0 <= k < objects.len() && (#[trigger] objects[k]).0 == id;
    if k < i {
        assert(id_less(objects[k].0, objects[i].0));
    } else if i < k {
        assert(id_less(objects[i].0, objects[k].0));
    }
}

impl Pdf {
    /// The invariant of a document.
    pub open spec fn wf(&self) -> bool {
        ids_ascend(self@.objects)
    }

    /// Index of the object `id`.
    pub fn find(&self, id: ObjectId) -> (r: Option<usize>)
        requires
            self.wf(),
        ensures
            match r {
                Some(i) => object_index(self@.objects, id) == Some(i as int) && i
                    < self.objects@.len() && self.objects@[i as int].id == id,
                None => object_index(self@.objects, id) is None,
            },
    {
        let ghost objects = self@.objects;
        let mut lo: usize = 0;
        let mut hi: usize = self.objects.len();
        while lo < hi
            invariant
                self.wf(),
                objects == self@.objects,
                lo <= hi <= self.objects@.len(),
                forall|i: int| 0 <= i < lo ==> id_less((#[trigger] objects[i]).0, id),
                forall|i: int| hi <= i < objects.len() ==> id_less(id, (#[trigger] objects[i]).0),
            decreases hi - lo,
        {
            let mid: usize = lo + (hi - lo) / 2;
            let own: ObjectId = self.objects[mid].id;
            proof {
                assert(objects[mid as int].0 == own);
            }
            if own.0 == id.0 && own.1 == id.1 {
                proof {
                    lemma_object_index(objects, mid as int);
                }
                return Some(mid);
            }
            if own.0 < id.0 || (own.0 == id.0 && own.1 < id.1) {
                proof {
                    assert forall|i: int| 0 <= i < mid + 1 implies id_less(
                        (#[trigger] objects[i]).0,
                        id,
                    ) by {
                        if i < mid {
                            assert(id_less(objects[i].0, objects[mid as int].0));
                        }
                    }
                }
                lo = mid + 1;
            } else {
                proof {
                    assert forall|i: int| mid <= i < objects.len() implies id_less(
                        id,
                        (#[trigger] objects[i]).0,
                    ) by {
                        if mid < i {
                            assert(id_less(objects[mid as int].0, objects[i].0));
                        }
                    }
                }
                hi = mid;
            }
        }
        None
    }

    /// The object `id`.
    pub fn object(&self, id: ObjectId) -> (r: Option<&PdfObject>)
        requires
            self.wf(),
        ensures
            match r {
                Some(o) => object_at(self@.objects, id) == Some(o@),
                None => object_at(self@.objects, id) is None,
            },
    {
        match self.find(id) {
            Some(i) => {
                proof {
                    assert(self@.objects[i as int].1 == object_view(
                        self.objects@[i as int].object,
                    ));
                }
                Some(&self.objects[i].object)
            },
            None => None,
        }
    }

    /// Replaces the object at index `i`.
    pub fn put(&mut self, i: usize, object: PdfObject)
        requires
            i < old(self).objects@.len(),
        ensures
            final(self)@ == (DocumentValue {
                objects: old(self)@.objects.update(i as int, (old(self)@.objects[i as int].0, object@)),
                ..old(self)@
            }),
            final(self).objects@.len() == old(self).objects@.len(),
            old(self).wf() ==> final(self).wf(),
    {
        let ghost before = self@;
        let id: ObjectId = self.objects[i].id;
        self.objects.set(i, Indirect { id, object });
        proof {
            assert(self@.objects =~= before.objects.update(i as int, (id, object@)));
        }
    }
}

} // verus!
