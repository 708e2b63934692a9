//! Looking things up in a document: following references, pages and their
//! content, filters, and what forbids touching a document.

use crate::bytes::same_bytes;
use crate::filters::{read_stream, readable};
use crate::flate::{inflate_capped, inflated, opt_view, MAX_REDEFLATE_BYTES};
use crate::names::{
    ACRO_FORM, BYTE_RANGE, CCITT_FAX_DECODE, CONTENTS, DCT_DECODE, DECODE_PARMS, DOC_TIME_STAMP,
    ENCRYPT, FILTER, FLATE_DECODE, JBIG2_DECODE, JPX_DECODE, METADATA, PARENT, RESOURCES, ROOT, SIG,
    SIG_FLAGS, TYPE, XOBJECT,
};
use crate::object::{
    dict_get, dict_has, object_at, object_index, object_view, Dict, ObjectId, Pdf, PdfObject,
    PdfStream, StreamValue, Value,
};
use crate::text::{contains_sub, has_sub};
use crate::words::PDFA_PART;
use vstd::prelude::*;

verus! {

// --- references ----------------------------------------------------------------------

/// Index of the object that the chain of references from index `i` leads
/// to, `n` of them followed so far. `None` where it leads nowhere or is
/// longer than 128.
pub open spec fn follow(objects: Seq<(ObjectId, Value)>, i: int, n: int) -> Option<int>
    decreases 129 - n,
{
    match objects[i].1 {
        Value::Reference(id) => match object_index(objects, id) {
            None => None,
            Some(j) => if n + 1 > 128 {
                None
            } else {
                follow(objects, j, n + 1)
            },
        },
        _ => Some(i),
    }
}

/// Index of the object `id`, references followed.
pub open spec fn lookup_index(objects: Seq<(ObjectId, Value)>, id: ObjectId) -> Option<int> {
    match object_index(objects, id) {
        Some(i) => follow(objects, i, 0),
        None => None,
    }
}

/// The object `id`, references followed.
pub open spec fn lookup(objects: Seq<(ObjectId, Value)>, id: ObjectId) -> Option<Value> {
    match lookup_index(objects, id) {
        Some(i) => Some(objects[i].1),
        None => None,
    }
}

/// What `v` stands for: the object that it refers to, or itself.
pub open spec fn resolved(objects: Seq<(ObjectId, Value)>, v: Value) -> Value {
    match v {
        Value::Reference(id) => match lookup(objects, id) {
            Some(w) => w,
            None => v,
        },
        _ => v,
    }
}

/// A chain of references leads to an object that is none.
pub proof fn lemma_follow(objects: Seq<(ObjectId, Value)>, i: int, n: int)
    requires
        0 <= i < objects.len(),
    ensures
        match follow(objects, i, n) {
            Some(k) => 0 <= k < objects.len() && !(objects[k].1 is Reference),
            None => true,
        },
    decreases 129 - n,
{
    match objects[i].1 {
        Value::Reference(id) => match object_index(objects, id) {
            Some(j) => {
                if n + 1 <= 128 {
                    lemma_follow(objects, j, n + 1);
                }
            },
            None => {},
        },
        _ => {},
    }
}

/// Index of the object `id`, references followed.
pub fn find_target(doc: &Pdf, id: ObjectId) -> (r: Option<usize>)
    requires
        doc.wf(),
    ensures
        match r {
            Some(i) => lookup_index(doc@.objects, id) == Some(i as int) && i < doc.objects@.len()
                && !(doc@.objects[i as int].1 is Reference),
            None => lookup_index(doc@.objects, id) is None,
        },
{
    let mut i: usize = doc.find(id)?;
    let mut n: usize = 0;
    loop
        invariant
            doc.wf(),
            n <= 128,
            i < doc.objects@.len(),
            lookup_index(doc@.objects, id) == follow(doc@.objects, i as int, n as int),
        decreases 129 - n,
    {
        proof {
            assert(doc@.objects[i as int].1 == object_view(doc.objects@[i as int].object));
        }
        match &doc.objects[i].object {
            PdfObject::Reference(next) => {
                let j: usize = doc.find(*next)?;
                if n + 1 > 128 {
                    return None;
                }
                i = j;
                n += 1;
            },
            _ => {
                return Some(i);
            },
        }
    }
}

/// The object `id`, references followed.
pub fn get_object(doc: &Pdf, id: ObjectId) -> (r: Option<&PdfObject>)
    requires
        doc.wf(),
    ensures
        match r {
            Some(o) => lookup(doc@.objects, id) == Some(o@) && !(o@ is Reference),
            None => lookup(doc@.objects, id) is None,
        },
{
    match find_target(doc, id) {
        Some(i) => {
            proof {
                assert(doc@.objects[i as int].1 == object_view(doc.objects@[i as int].object));
            }
            Some(&doc.objects[i].object)
        },
        None => None,
    }
}

/// Follows references to the concrete object.
pub fn resolve<'a>(doc: &'a Pdf, obj: &'a PdfObject) -> (r: &'a PdfObject)
    requires
        doc.wf(),
    ensures
        r@ == resolved(doc@.objects, obj@),
{
    match obj {
        PdfObject::Reference(id) => match get_object(doc, *id) {
            Some(o) => o,
            None => obj,
        },
        _ => obj,
    }
}

/// The dictionary `id`, references followed.
pub open spec fn dict_at(objects: Seq<(ObjectId, Value)>, id: ObjectId) -> Option<
    Seq<(Seq<u8>, Value)>,
> {
    match lookup(objects, id) {
        Some(Value::Dictionary(d)) => Some(d),
        _ => None,
    }
}

/// The dictionary `id`, references followed.
pub fn get_dict(doc: &Pdf, id: ObjectId) -> (r: Option<&Dict>)
    requires
        doc.wf(),
    ensures
        match r {
            Some(d) => dict_at(doc@.objects, id) == Some(d@),
            None => dict_at(doc@.objects, id) is None,
        },
{
    match get_object(doc, id) {
        Some(PdfObject::Dictionary(d)) => Some(d),
        _ => None,
    }
}

/// The dictionary that the trailer's `key` refers to.
pub open spec fn trailer_dict(
    trailer: Seq<(Seq<u8>, Value)>,
    objects: Seq<(ObjectId, Value)>,
    key: Seq<u8>,
) -> Option<Seq<(Seq<u8>, Value)>> {
    match dict_get(trailer, key) {
        Some(Value::Reference(id)) => dict_at(objects, id),
        _ => None,
    }
}

/// The dictionary that the trailer's `key` refers to.
pub fn get_trailer_dict<'a>(doc: &'a Pdf, key: &[u8]) -> (r: Option<&'a Dict>)
    requires
        doc.wf(),
    ensures
        match r {
            Some(d) => trailer_dict(doc@.trailer, doc@.objects, key@) == Some(d@),
            None => trailer_dict(doc@.trailer, doc@.objects, key@) is None,
        },
{
    match doc.trailer.get(key) {
        Some(PdfObject::Reference(id)) => get_dict(doc, *id),
        _ => None,
    }
}

// --- what forbids touching a document -------------------------------------------------

/// The document is encrypted: its trailer names an encryption dictionary.
pub open spec fn encrypted_value(
    trailer: Seq<(Seq<u8>, Value)>,
    objects: Seq<(ObjectId, Value)>,
) -> bool {
    trailer_dict(trailer, objects, ENCRYPT@) is Some
}

/// Whether the document is encrypted.
pub fn is_encrypted(doc: &Pdf) -> (r: bool)
    requires
        doc.wf(),
    ensures
        r == encrypted_value(doc@.trailer, doc@.objects),
{
    let key: [u8; 7] = ENCRYPT;
    get_trailer_dict(doc, key.as_slice()).is_some()
}

/// A signature dictionary: it pins a range of the file's bytes, or says that
/// it is one.
pub open spec fn signs(d: Seq<(Seq<u8>, Value)>) -> bool {
    dict_has(d, BYTE_RANGE@) || dict_get(d, TYPE@) == Some(Value::Name(SIG@)) || dict_get(d, TYPE@)
        == Some(Value::Name(DOC_TIME_STAMP@))
}

/// The object is, or its dictionary is, a signature dictionary.
pub open spec fn object_signs(v: Value) -> bool {
    match v {
        Value::Dictionary(d) => signs(d),
        Value::Stream(s) => signs(s.dict),
        _ => false,
    }
}

/// The document carries a digital signature, or its form declares one.
pub open spec fn is_signed(
    trailer: Seq<(Seq<u8>, Value)>,
    objects: Seq<(ObjectId, Value)>,
) -> bool {
    ||| declares_signature(trailer, objects)
    ||| exists|i: int| 0 <= i < objects.len() && object_signs((#[trigger] objects[i]).1)
}

/// The interactive form of the document has `/SigFlags`.
pub open spec fn declares_signature(
    trailer: Seq<(Seq<u8>, Value)>,
    objects: Seq<(ObjectId, Value)>,
) -> bool {
    match trailer_dict(trailer, objects, ROOT@) {
        Some(catalog) => match dict_get(catalog, ACRO_FORM@) {
            Some(form) => match resolved(objects, form) {
                Value::Dictionary(d) => dict_has(d, SIG_FLAGS@),
                _ => false,
            },
            None => false,
        },
        None => false,
    }
}

/// Whether `o` is the name `name`.
pub fn is_name(o: Option<&PdfObject>, name: &[u8]) -> (r: bool)
    ensures
        r == (o is Some && (o->0)@ == Value::Name(name@)),
{
    match o {
        Some(PdfObject::Name(n)) => same_bytes(n.as_slice(), name),
        _ => false,
    }
}

/// Whether a dictionary is a signature dictionary.
pub fn is_signature_dict(dict: &Dict) -> (r: bool)
    ensures
        r == signs(dict@),
{
    let (range, type_key, sig, stamp): ([u8; 9], [u8; 4], [u8; 3], [u8; 12]) = (
        BYTE_RANGE,
        TYPE,
        SIG,
        DOC_TIME_STAMP,
    );
    dict.has(range.as_slice()) || is_name(dict.get(type_key.as_slice()), sig.as_slice()) || is_name(
        dict.get(type_key.as_slice()),
        stamp.as_slice(),
    )
}

/// Whether the interactive form of the document has `/SigFlags`.
fn form_declares_signature(doc: &Pdf) -> (r: bool)
    requires
        doc.wf(),
    ensures
        r == declares_signature(doc@.trailer, doc@.objects),
{
    let (root, form_key, flags): ([u8; 4], [u8; 8], [u8; 8]) = (ROOT, ACRO_FORM, SIG_FLAGS);
    match get_trailer_dict(doc, root.as_slice()) {
        Some(catalog) => match catalog.get(form_key.as_slice()) {
            Some(form) => match resolve(doc, form) {
                PdfObject::Dictionary(d) => d.has(flags.as_slice()),
                _ => false,
            },
            None => false,
        },
        None => false,
    }
}

/// Whether the document carries a digital signature.
pub fn signature_present(doc: &Pdf) -> (r: bool)
    requires
        doc.wf(),
    ensures
        r == is_signed(doc@.trailer, doc@.objects),
{
    if form_declares_signature(doc) {
        return true;
    }
    let ghost objects = doc@.objects;
    let mut i: usize = 0;
    while i < doc.objects.len()
        invariant
            i <= doc.objects@.len(),
            objects == doc@.objects,
            forall|k: int| 0 <= k < i ==> !object_signs((#[trigger] objects[k]).1),
        decreases doc.objects@.len() - i,
    {
        proof {
            assert(objects[i as int].1 == object_view(doc.objects@[i as int].object));
        }
        let hit = match &doc.objects[i].object {
            PdfObject::Dictionary(d) => is_signature_dict(d),
            PdfObject::Stream(s) => is_signature_dict(&s.dict),
            _ => false,
        };
        if hit {
            return true;
        }
        i += 1;
    }
    false
}

/// The word by which metadata claims conformance to PDF/A.
pub open spec fn claims_pdfa(data: Seq<u8>) -> bool {
    has_sub(data, PDFA_PART@)
}

/// The document claims conformance to PDF/A: the metadata of its catalog, or
/// its raw bytes where it cannot be decoded, says so.
pub open spec fn pdfa_declared(
    trailer: Seq<(Seq<u8>, Value)>,
    objects: Seq<(ObjectId, Value)>,
) -> bool {
    match trailer_dict(trailer, objects, ROOT@) {
        Some(catalog) => match dict_get(catalog, METADATA@) {
            Some(meta) => match resolved(objects, meta) {
                Value::Stream(s) => claims_pdfa(
                    match readable(s) {
                        Some(data) => data,
                        None => s.content,
                    },
                ),
                _ => false,
            },
            None => false,
        },
        None => false,
    }
}

/// Whether the document claims conformance to PDF/A, which the passes that
/// rewrite streams respect.
pub fn pdfa_blocked(doc: &Pdf) -> (r: bool)
    requires
        doc.wf(),
    ensures
        r == pdfa_declared(doc@.trailer, doc@.objects),
{
    let (root, meta_key, word): ([u8; 4], [u8; 8], [u8; 11]) = (ROOT, METADATA, PDFA_PART);
    match get_trailer_dict(doc, root.as_slice()) {
        Some(catalog) => match catalog.get(meta_key.as_slice()) {
            Some(meta) => match resolve(doc, meta) {
                PdfObject::Stream(s) => match read_stream(s) {
                    Some(data) => contains_sub(data.as_slice(), word.as_slice()),
                    None => contains_sub(s.content.as_slice(), word.as_slice()),
                },
                _ => false,
            },
            None => false,
        },
        None => false,
    }
}

// --- filters ------------------------------------------------------------------------------

/// What a stream's `/Filter` is.
#[derive(Debug, Clone, Copy, PartialEq, Eq, Structural)]
pub enum FilterClass {
    DctOnly,
    FlateOnly,
    CcittOnly,
    /// JPEG 2000. Only the conversion that asks for consent decodes it.
    JpxOnly,
    /// JBIG2. Nothing decodes it; recognized so that it is never taken for
    /// something else.
    Jbig2Only,
    Other,
}

/// The class of a filter name.
pub open spec fn class_of_name(n: Seq<u8>) -> FilterClass {
    if n == DCT_DECODE@ {
        FilterClass::DctOnly
    } else if n == FLATE_DECODE@ {
        FilterClass::FlateOnly
    } else if n == CCITT_FAX_DECODE@ {
        FilterClass::CcittOnly
    } else if n == JPX_DECODE@ {
        FilterClass::JpxOnly
    } else if n == JBIG2_DECODE@ {
        FilterClass::Jbig2Only
    } else {
        FilterClass::Other
    }
}

/// The class of a `/Filter`: a name, or an array of one name.
pub open spec fn filter_class(objects: Seq<(ObjectId, Value)>, filter: Value) -> FilterClass {
    match resolved(objects, filter) {
        Value::Name(n) => class_of_name(n),
        Value::Array(items) => if items.len() == 1 {
            match resolved(objects, items[0]) {
                Value::Name(n) => class_of_name(n),
                _ => FilterClass::Other,
            }
        } else {
            FilterClass::Other
        },
        _ => FilterClass::Other,
    }
}

/// The class of a filter name.
fn classify_name(n: &[u8]) -> (r: FilterClass)
    ensures
        r == class_of_name(n@),
{
    let (dct, flate, ccitt, jpx, jbig2): ([u8; 9], [u8; 11], [u8; 14], [u8; 9], [u8; 11]) = (
        DCT_DECODE,
        FLATE_DECODE,
        CCITT_FAX_DECODE,
        JPX_DECODE,
        JBIG2_DECODE,
    );
    if same_bytes(n, dct.as_slice()) {
        FilterClass::DctOnly
    } else if same_bytes(n, flate.as_slice()) {
        FilterClass::FlateOnly
    } else if same_bytes(n, ccitt.as_slice()) {
        FilterClass::CcittOnly
    } else if same_bytes(n, jpx.as_slice()) {
        FilterClass::JpxOnly
    } else if same_bytes(n, jbig2.as_slice()) {
        FilterClass::Jbig2Only
    } else {
        FilterClass::Other
    }
}

/// Classifies a stream's `/Filter`, in its scalar form and as an array of
/// one. The exotic classes are recognized and declined.
pub fn classify_filter(doc: &Pdf, filter: &PdfObject) -> (r: FilterClass)
    requires
        doc.wf(),
    ensures
        r == filter_class(doc@.objects, filter@),
{
    match resolve(doc, filter) {
        PdfObject::Name(n) => classify_name(n.as_slice()),
        PdfObject::Array(items) => {
            if items.len() == 1 {
                match resolve(doc, &items[0]) {
                    PdfObject::Name(n) => classify_name(n.as_slice()),
                    _ => FilterClass::Other,
                }
            } else {
                FilterClass::Other
            }
        },
        _ => FilterClass::Other,
    }
}

/// The entry is missing or null.
pub open spec fn absent(d: Seq<(Seq<u8>, Value)>, key: Seq<u8>) -> bool {
    dict_get(d, key) is None || dict_get(d, key) == Some(Value::Null)
}

/// Whether the entry is missing or null.
pub fn is_absent(d: &Dict, key: &[u8]) -> (r: bool)
    ensures
        r == absent(d@, key@),
{
    match d.get(key) {
        None => true,
        Some(PdfObject::Null) => true,
        Some(_) => false,
    }
}

/// The bytes of a content stream, where its decoding is beyond doubt: no
/// filter, or plain Flate without parameters.
pub open spec fn plain_content(objects: Seq<(ObjectId, Value)>, s: StreamValue) -> Option<Seq<u8>> {
    if absent(s.dict, FILTER@) {
        Some(s.content)
    } else if filter_class(objects, dict_get(s.dict, FILTER@)->0) == FilterClass::FlateOnly
        && absent(s.dict, DECODE_PARMS@) {
        inflated(s.content, MAX_REDEFLATE_BYTES as nat)
    } else {
        None
    }
}

/// The bytes of a content stream, where its decoding is beyond doubt.
pub fn content_stream_plain(doc: &Pdf, stream: &PdfStream) -> (r: Option<Vec<u8>>)
    requires
        doc.wf(),
    ensures
        opt_view(r) == plain_content(doc@.objects, stream@),
{
    let (filter_key, parms_key): ([u8; 6], [u8; 11]) = (FILTER, DECODE_PARMS);
    match stream.dict.get(filter_key.as_slice()) {
        None => Some(stream.content.clone()),
        Some(PdfObject::Null) => Some(stream.content.clone()),
        Some(filter) => {
            if classify_filter(doc, filter) != FilterClass::FlateOnly {
                return None;
            }
            if !is_absent(&stream.dict, parms_key.as_slice()) {
                return None;
            }
            inflate_capped(stream.content.as_slice(), MAX_REDEFLATE_BYTES)
        },
    }
}

// --- pages ----------------------------------------------------------------------------------

/// The references among the first `n` items.
pub open spec fn references_in(items: Seq<Value>, n: int) -> Seq<ObjectId>
    decreases n,
{
    if n <= 0 {
        Seq::empty()
    } else {
        match items[n - 1] {
            Value::Reference(id) => references_in(items, n - 1).push(id),
            _ => references_in(items, n - 1),
        }
    }
}

/// The content streams that a page's `/Contents` names, `n` references
/// followed so far.
pub open spec fn content_ids(objects: Seq<(ObjectId, Value)>, v: Value, n: int) -> Seq<ObjectId>
    decreases 128 - n,
{
    match v {
        Value::Reference(id) => match object_at(objects, id) {
            None => seq![id],
            Some(Value::Stream(_)) => seq![id],
            Some(o) => if n + 1 < 128 {
                content_ids(objects, o, n + 1)
            } else {
                Seq::empty()
            },
        },
        Value::Array(items) => references_in(items, items.len() as int),
        _ => Seq::empty(),
    }
}

/// The content streams of a page.
pub open spec fn page_content_ids(objects: Seq<(ObjectId, Value)>, page: ObjectId) -> Seq<ObjectId> {
    match dict_at(objects, page) {
        Some(d) => match dict_get(d, CONTENTS@) {
            Some(v) => content_ids(objects, v, 0),
            None => Seq::empty(),
        },
        None => Seq::empty(),
    }
}

/// The content of a page from the first `n` of its streams, each followed by
/// a line feed; one that cannot be decoded contributes its raw bytes.
pub open spec fn joined_content(
    objects: Seq<(ObjectId, Value)>,
    ids: Seq<ObjectId>,
    n: int,
) -> Seq<u8>
    decreases n,
{
    if n <= 0 {
        Seq::empty()
    } else {
        let before = joined_content(objects, ids, n - 1);
        match lookup(objects, ids[n - 1]) {
            Some(Value::Stream(s)) => before + (match readable(s) {
                Some(data) => data,
                None => s.content,
            }) + seq![0x0Au8],
            _ => before,
        }
    }
}

/// The references in a list of objects.
fn collect_references(items: &Vec<PdfObject>) -> (r: Vec<ObjectId>)
    ensures
        r@ == references_in(crate::object::values(items@), items@.len() as int),
{
    let ghost list = crate::object::values(items@);
    let mut out: Vec<ObjectId> = Vec::new();
    let mut i: usize = 0;
    while i < items.len()
        invariant
            i <= items@.len(),
            list == crate::object::values(items@),
            out@ == references_in(list, i as int),
        decreases items@.len() - i,
    {
        proof {
            assert(list[i as int] == object_view(items@[i as int]));
        }
        match &items[i] {
            PdfObject::Reference(id) => {
                out.push(*id);
            },
            _ => {},
        }
        i += 1;
    }
    out
}

/// The content streams of a page.
pub fn page_contents(doc: &Pdf, page: ObjectId) -> (r: Vec<ObjectId>)
    requires
        doc.wf(),
    ensures
        r@ == page_content_ids(doc@.objects, page),
{
    let key: [u8; 8] = CONTENTS;
    let dict = match get_dict(doc, page) {
        Some(d) => d,
        None => {
            return Vec::new();
        },
    };
    let mut cur: &PdfObject = match dict.get(key.as_slice()) {
        Some(o) => o,
        None => {
            return Vec::new();
        },
    };
    let mut n: usize = 0;
    loop
        invariant
            doc.wf(),
            n < 128,
            page_content_ids(doc@.objects, page) == content_ids(doc@.objects, cur@, n as int),
        decreases 128 - n,
    {
        match cur {
            PdfObject::Reference(id) => match doc.object(*id) {
                None => {
                    let mut out: Vec<ObjectId> = Vec::new();
                    out.push(*id);
                    proof {
                        assert(out@ =~= seq![*id]);
                    }
                    return out;
                },
                Some(PdfObject::Stream(_)) => {
                    let mut out: Vec<ObjectId> = Vec::new();
                    out.push(*id);
                    proof {
                        assert(out@ =~= seq![*id]);
                    }
                    return out;
                },
                Some(o) => {
                    if n + 1 >= 128 {
                        return Vec::new();
                    }
                    n += 1;
                    cur = o;
                },
            },
            PdfObject::Array(items) => {
                proof {
                    assert(cur@->Array_0 =~= crate::object::values(items@));
                }
                return collect_references(items);
            },
            _ => {
                return Vec::new();
            },
        }
    }
}

/// The content of a page.
pub fn page_content(doc: &Pdf, page: ObjectId) -> (r: Vec<u8>)
    requires
        doc.wf(),
    ensures
        r@ == joined_content(
            doc@.objects,
            page_content_ids(doc@.objects, page),
            page_content_ids(doc@.objects, page).len() as int,
        ),
{
    let ids = page_contents(doc, page);
    let mut out: Vec<u8> = Vec::new();
    let mut i: usize = 0;
    while i < ids.len()
        invariant
            i <= ids@.len(),
            doc.wf(),
            out@ == joined_content(doc@.objects, ids@, i as int),
        decreases ids@.len() - i,
    {
        match get_object(doc, ids[i]) {
            Some(PdfObject::Stream(s)) => {
                proof {
                    assert(lookup(doc@.objects, ids@[i as int]) == Some(Value::Stream(s@)));
                }
                match read_stream(s) {
                    Some(data) => {
                        out.extend_from_slice(data.as_slice());
                    },
                    None => {
                        out.extend_from_slice(s.content.as_slice());
                    },
                }
                out.push(0x0A);
                proof {
                    assert(out@ =~= joined_content(doc@.objects, ids@, i + 1));
                }
            },
            _ => {},
        }
        i += 1;
    }
    out
}

/// The resources of a page, or of the nearest ancestor that has some, at most
/// 32 steps up.
pub open spec fn resources_of(objects: Seq<(ObjectId, Value)>, node: ObjectId, n: int) -> Option<
    Seq<(Seq<u8>, Value)>,
>
    decreases 32 - n,
{
    if n >= 32 {
        None
    } else {
        match dict_at(objects, node) {
            None => None,
            Some(d) => match dict_get(d, RESOURCES@) {
                Some(res) => match resolved(objects, res) {
                    Value::Dictionary(r) => Some(r),
                    _ => None,
                },
                None => match dict_get(d, PARENT@) {
                    Some(Value::Reference(up)) => resources_of(objects, up, n + 1),
                    _ => None,
                },
            },
        }
    }
}

/// The resources of a page, climbing the chain of parents, from which they
/// can be inherited.
pub fn page_resources(doc: &Pdf, page_id: ObjectId) -> (r: Option<&Dict>)
    requires
        doc.wf(),
    ensures
        match r {
            Some(d) => resources_of(doc@.objects, page_id, 0) == Some(d@),
            None => resources_of(doc@.objects, page_id, 0) is None,
        },
{
    let (res_key, parent_key): ([u8; 9], [u8; 6]) = (RESOURCES, PARENT);
    let mut node: ObjectId = page_id;
    let mut n: usize = 0;
    while n < 32
        invariant
            doc.wf(),
            n <= 32,
            res_key@ == RESOURCES@,
            parent_key@ == PARENT@,
            resources_of(doc@.objects, page_id, 0) == resources_of(doc@.objects, node, n as int),
        decreases 32 - n,
    {
        let dict = get_dict(doc, node)?;
        match dict.get(res_key.as_slice()) {
            Some(res) => {
                return match resolve(doc, res) {
                    PdfObject::Dictionary(d) => Some(d),
                    _ => None,
                };
            },
            None => {},
        }
        match dict.get(parent_key.as_slice()) {
            Some(PdfObject::Reference(up)) => {
                node = *up;
            },
            _ => {
                return None;
            },
        }
        n += 1;
    }
    None
}

/// The named objects of a page that its resources refer to: name and
/// identifier, of the first `n` entries.
pub open spec fn named_references(d: Seq<(Seq<u8>, Value)>, n: int) -> Seq<(Seq<u8>, ObjectId)>
    decreases n,
{
    if n <= 0 {
        Seq::empty()
    } else {
        match d[n - 1].1 {
            Value::Reference(id) => named_references(d, n - 1).push((d[n - 1].0, id)),
            _ => named_references(d, n - 1),
        }
    }
}

/// The named external objects of a page.
pub open spec fn page_names(objects: Seq<(ObjectId, Value)>, page: ObjectId) -> Seq<
    (Seq<u8>, ObjectId),
> {
    match resources_of(objects, page, 0) {
        None => Seq::empty(),
        Some(res) => match dict_get(res, XOBJECT@) {
            None => Seq::empty(),
            Some(x) => match resolved(objects, x) {
                Value::Dictionary(d) => named_references(d, d.len() as int),
                _ => Seq::empty(),
            },
        },
    }
}

/// Names and identifiers, by content.
pub open spec fn name_views(list: Seq<(Vec<u8>, ObjectId)>) -> Seq<(Seq<u8>, ObjectId)> {
    list.map_values(|e: (Vec<u8>, ObjectId)| (e.0@, e.1))
}

/// The names of a page's external objects and what they refer to.
pub fn page_image_names(doc: &Pdf, page_id: ObjectId) -> (r: Vec<(Vec<u8>, ObjectId)>)
    requires
        doc.wf(),
    ensures
        name_views(r@) == page_names(doc@.objects, page_id),
{
    let key: [u8; 7] = XOBJECT;
    let mut out: Vec<(Vec<u8>, ObjectId)> = Vec::new();
    proof {
        assert(name_views(out@) =~= Seq::empty());
    }
    let resources = match page_resources(doc, page_id) {
        Some(d) => d,
        None => {
            return out;
        },
    };
    let entry = match resources.get(key.as_slice()) {
        Some(o) => o,
        None => {
            return out;
        },
    };
    let dict = match resolve(doc, entry) {
        PdfObject::Dictionary(d) => d,
        _ => {
            return out;
        },
    };
    let mut i: usize = 0;
    while i < dict.entries.len()
        invariant
            i <= dict.entries@.len(),
            dict@.len() == dict.entries@.len(),
            name_views(out@) == named_references(dict@, i as int),
        decreases dict.entries@.len() - i,
    {
        proof {
            assert(dict@[i as int] == (
                dict.entries@[i as int].key@,
                object_view(dict.entries@[i as int].value),
            ));
        }
        let ghost before = name_views(out@);
        match &dict.entries[i].value {
            PdfObject::Reference(id) => {
                out.push((dict.entries[i].key.clone(), *id));
                proof {
                    assert(name_views(out@) =~= before.push((dict@[i as int].0, *id)));
                }
            },
            _ => {},
        }
        i += 1;
    }
    out
}

} // verus!
